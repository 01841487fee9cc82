use vstd::prelude::*;

use crate::lexer::STok;
use crate::lexer::digit_end;
use crate::lexer::digit_val;
use crate::lexer::digits_val;
use crate::lexer::is_digit;
use crate::lexer::is_ws;
use crate::lexer::lit_digit_count;
use crate::lexer::lit_digits_from;
use crate::lexer::lit_has_frac;
use crate::lexer::lit_mant;
use crate::lexer::lit_num;
use crate::lexer::lit_scale;
use crate::lexer::number_end;
use crate::num::spec_gcd;
use crate::num::spec_reduce;
use crate::lexer::is_sym_char;
use crate::lexer::number_starts;
use crate::lexer::pow10;
use crate::lexer::spec_tokens;
use crate::lexer::sym_end;
use crate::parser::ParseErrorKind;
use crate::parser::sp_expr;
use crate::parser::sp_parse;
use crate::parser::sp_program;
use crate::lexer::lemma_pow10_mono;
use crate::lexer::lemma_pow10_18;
use crate::num::Num;
use crate::value::SpecVal;
use crate::value::Value;
use crate::value::dv_seq;
use crate::value::lemma_dv_seq;
use crate::value::lemma_svs_wf;
use crate::value::names_dv;
use crate::value::sv_wf;
use crate::value::svs_wf;

verus! {

broadcast use vstd::std_specs::vec::group_vec_axioms;

/// The character of one decimal digit.
pub open spec fn digit_char(x: int) -> char {
    if x == 0 {
        '0'
    } else if x == 1 {
        '1'
    } else if x == 2 {
        '2'
    } else if x == 3 {
        '3'
    } else if x == 4 {
        '4'
    } else if x == 5 {
        '5'
    } else if x == 6 {
        '6'
    } else if x == 7 {
        '7'
    } else if x == 8 {
        '8'
    } else {
        '9'
    }
}

/// The decimal digits of a nonnegative integer, most significant
/// first.
pub open spec fn digits_text(x: int) -> Seq<char>
    decreases x,
{
    if x < 10 {
        seq![digit_char(x)]
    } else {
        digits_text(x / 10).push(digit_char(x % 10))
    }
}

pub open spec fn zeros(k: nat) -> Seq<char>
    decreases k,
{
    if k == 0 {
        Seq::empty()
    } else {
        seq!['0'] + zeros((k - 1) as nat)
    }
}

/// The smallest scale from `k` up to eighteen whose power of ten the
/// denominator divides.
pub open spec fn dec_scale(d: int, k: nat) -> Option<nat>
    decreases 19 - k,
{
    if k > 18 {
        None
    } else if pow10(k) % d == 0 {
        Some(k)
    } else {
        dec_scale(d, k + 1)
    }
}

/// The textual rendering of a number: an integer as its digits; a
/// fraction as a decimal where a power of ten allows it, and as
/// `n/d` where none does.
pub open spec fn num_text(q: Num) -> Seq<char> {
    let sign: Seq<char> = if q.n < 0 {
        seq!['-']
    } else {
        Seq::empty()
    };
    let a: int = if q.n < 0 {
        -(q.n as int)
    } else {
        q.n as int
    };
    if q.d == 1 {
        sign + digits_text(a)
    } else {
        match dec_scale(q.d as int, 1) {
            Some(k) => {
                let mult = pow10(k) / (q.d as int);
                let m = a * mult;
                if m <= i64::MAX {
                    let frac = digits_text(m % pow10(k));
                    let fracpad = zeros((k - frac.len()) as nat) + frac;
                    sign + digits_text(m / pow10(k)) + seq!['.'] + fracpad
                } else {
                    sign + digits_text(a) + seq!['/'] + digits_text(q.d as int)
                }
            },
            None => sign + digits_text(a) + seq!['/'] + digits_text(q.d as int),
        }
    }
}

/// The rendering of a value, as the shell prints it: numbers and
/// symbols bare, `nil` as a word, lists parenthesized and space
/// separated, a function as its parameter list and body.
pub open spec fn render_sv(v: SpecVal) -> Seq<char>
    decreases v, 0int, 0int,
{
    match v {
        SpecVal::Number(q) => num_text(q),
        SpecVal::Symbol(s) => s,
        SpecVal::Nil => "nil"@,
        SpecVal::List(es) => seq!['('] + render_join(es, 0) + seq![')'],
        SpecVal::Lambda(ps, body) => "fn("@ + render_names(ps, 0) + seq![')'] + render_body(
            body,
            0,
        ),
    }
}

/// List elements, one space between neighbours.
pub open spec fn render_join(es: Seq<SpecVal>, k: int) -> Seq<char>
    decreases es, 1int, es.len() - k,
{
    if k < 0 || k >= es.len() {
        Seq::empty()
    } else {
        let sep: Seq<char> = if k > 0 {
            seq![' ']
        } else {
            Seq::empty()
        };
        sep + render_sv(es[k]) + render_join(es, k + 1)
    }
}

/// Parameter names, each followed by one space.
pub open spec fn render_names(ps: Seq<Seq<char>>, k: int) -> Seq<char>
    decreases ps.len() - k,
{
    if k < 0 || k >= ps.len() {
        Seq::empty()
    } else {
        ps[k] + seq![' '] + render_names(ps, k + 1)
    }
}

/// Body expressions, each preceded by one space.
pub open spec fn render_body(body: Seq<SpecVal>, k: int) -> Seq<char>
    decreases body, 1int, body.len() - k,
{
    if k < 0 || k >= body.len() {
        Seq::empty()
    } else {
        seq![' '] + render_sv(body[k]) + render_body(body, k + 1)
    }
}

} // verus!

verus! {

fn digit_char_exec(x: i64) -> (c: char)
    requires
        0 <= x <= 9,
    ensures
        c == digit_char(x as int),
{
    if x == 0 {
        '0'
    } else if x == 1 {
        '1'
    } else if x == 2 {
        '2'
    } else if x == 3 {
        '3'
    } else if x == 4 {
        '4'
    } else if x == 5 {
        '5'
    } else if x == 6 {
        '6'
    } else if x == 7 {
        '7'
    } else if x == 8 {
        '8'
    } else {
        '9'
    }
}

fn digits_chars(x: i64) -> (v: Vec<char>)
    requires
        0 <= x,
    ensures
        v@ == digits_text(x as int),
        v@.len() >= 1,
    decreases x,
{
    if x < 10 {
        let mut v: Vec<char> = Vec::new();
        v.push(digit_char_exec(x));
        proof {
            assert(v@ =~= seq![digit_char(x as int)]);
        }
        v
    } else {
        let mut v = digits_chars(x / 10);
        v.push(digit_char_exec(x % 10));
        v
    }
}

proof fn lemma_digits_len(x: int, k: nat)
    requires
        0 <= x < pow10(k),
        1 <= k,
    ensures
        1 <= digits_text(x).len() <= k,
    decreases k,
{
    if x < 10 {
    } else {
        assert(pow10(k) == 10 * pow10((k - 1) as nat));
        assert(x / 10 < pow10((k - 1) as nat)) by (nonlinear_arith)
            requires
                x < pow10(k),
                pow10(k) == 10 * pow10((k - 1) as nat),
                x >= 10,
                pow10((k - 1) as nat) >= 1,
        ;
        lemma_digits_len(x / 10, (k - 1) as nat);
    }
}

fn dec_scale_exec(d: i64, k: usize) -> (r: Option<usize>)
    requires
        1 <= d,
        1 <= k <= 19,
    ensures
        match dec_scale(d as int, k as nat) {
            Some(s) => r matches Some(rs) && rs == s && k <= rs <= 18,
            None => r is None,
        },
    decreases 19 - k,
{
    if k > 18 {
        None
    } else {
        let p = crate::lexer::pow10_exec(k);
        if p % d == 0 {
            Some(k)
        } else {
            dec_scale_exec(d, k + 1)
        }
    }
}

fn num_chars(q: Num) -> (out: Vec<char>)
    requires
        q.wf(),
    ensures
        out@ == num_text(q),
{
    let neg = q.n < 0;
    let a = if neg {
        -q.n
    } else {
        q.n
    };
    let mut out: Vec<char> = Vec::new();
    if neg {
        out.push('-');
    }
    let ghost sign = out@;
    proof {
        if neg {
            assert(sign =~= seq!['-']);
        } else {
            assert(sign =~= Seq::<char>::empty());
        }
    }
    if q.d == 1 {
        let mut ds = digits_chars(a);
        out.append(&mut ds);
        proof {
            assert(out@ =~= num_text(q));
        }
        out
    } else {
        match dec_scale_exec(q.d, 1) {
            Some(k) => {
                let p = crate::lexer::pow10_exec(k);
                let mult = p / q.d;
                proof {
                    lemma_pow10_mono(k as nat, 18);
                    lemma_pow10_18();
                    assert(0 <= mult <= p) by (nonlinear_arith)
                        requires
                            p >= 1,
                            q.d >= 1,
                            mult == p as int / q.d as int,
                    ;
                    assert(a as int * (mult as int) <= i64::MAX * 1000000000000000000)
                        by (nonlinear_arith)
                        requires
                            0 <= a <= i64::MAX,
                            0 <= mult <= 1000000000000000000,
                    ;
                }
                let big = a as i128 * mult as i128;
                if big <= i64::MAX as i128 {
                    proof {
                        assert(a as int * (pow10(k as nat) / (q.d as int)) == big);
                    }
                    let m = (a as i128 * mult as i128) as i64;
                    proof {
                        assert(pow10(k as nat) >= 1);
                        lemma_pow10_mono(1, k as nat);
                    }
                    let ip = m / p;
                    let fr = m % p;
                    let mut id = digits_chars(ip);
                    let mut fd = digits_chars(fr);
                    proof {
                        lemma_digits_len(fr as int, k as nat);
                    }
                    let ghost fd0 = fd@;
                    while fd.len() < k
                        invariant
                            fd@.len() >= fd0.len(),
                            fd@.len() <= k || fd@ == fd0,
                            fd@ =~= zeros((fd@.len() - fd0.len()) as nat) + fd0,
                        decreases k - fd@.len(),
                    {
                        fd.insert(0, '0');
                        proof {
                            assert(fd@.subrange(1, fd@.len() as int) =~= zeros(
                                ((fd@.len() - 1) - fd0.len()) as nat,
                            ) + fd0);
                            assert(fd@ =~= seq!['0'] + (zeros(
                                ((fd@.len() - 1) - fd0.len()) as nat,
                            ) + fd0));
                            assert(seq!['0'] + zeros(((fd@.len() - 1) - fd0.len()) as nat) =~= zeros(
                                (fd@.len() - fd0.len()) as nat,
                            ));
                            assert(fd@ =~= zeros((fd@.len() - fd0.len()) as nat) + fd0);
                        }
                    }
                    out.append(&mut id);
                    out.push('.');
                    out.append(&mut fd);
                    proof {
                        assert(out@ =~= num_text(q));
                    }
                    out
                } else {
                    let mut nd = digits_chars(a);
                    out.append(&mut nd);
                    out.push('/');
                    let mut dd = digits_chars(q.d);
                    out.append(&mut dd);
                    proof {
                        assert(out@ =~= num_text(q));
                    }
                    out
                }
            },
            None => {
                let mut nd = digits_chars(a);
                out.append(&mut nd);
                out.push('/');
                let mut dd = digits_chars(q.d);
                out.append(&mut dd);
                proof {
                    assert(out@ =~= num_text(q));
                }
                out
            },
        }
    }
}

fn push_str_chars(out: &mut Vec<char>, s: &String)
    ensures
        final(out)@ == old(out)@ + s@,
{
    let st = s.as_str();
    let len = st.unicode_len();
    let mut i: usize = 0;
    while i < len
        invariant
            i <= len,
            len == s@.len(),
            st@ == s@,
            out@ == old(out)@ + s@.subrange(0, i as int),
        decreases len - i,
    {
        let c = st.get_char(i);
        out.push(c);
        proof {
            assert(out@ =~= old(out)@ + s@.subrange(0, i as int + 1));
        }
        i += 1;
    }
    proof {
        assert(s@.subrange(0, s@.len() as int) =~= s@);
    }
}

fn render_chars(v: &Value) -> (out: Vec<char>)
    requires
        sv_wf(v.dv()),
    ensures
        out@ == render_sv(v.dv()),
    decreases v, 0int, 0int,
{
    match v {
        Value::Number(q) => num_chars(*q),
        Value::Symbol(s) => {
            let mut out: Vec<char> = Vec::new();
            push_str_chars(&mut out, s);
            proof {
                assert(out@ =~= s@);
            }
            out
        },
        Value::Nil => {
            let mut out: Vec<char> = Vec::new();
            out.push('n');
            out.push('i');
            out.push('l');
            proof {
                reveal_strlit("nil");
                assert(out@ =~= "nil"@);
            }
            out
        },
        Value::List(es) => {
            proof {
                lemma_dv_seq(es@);
            }
            let mut out: Vec<char> = Vec::new();
            out.push('(');
            let mut inner = render_join_chars(es, 0);
            out.append(&mut inner);
            out.push(')');
            proof {
                assert(out@ =~= seq!['('] + render_join(dv_seq(es@), 0) + seq![')']);
            }
            out
        },
        Value::Lambda(ps, body) => {
            proof {
                lemma_dv_seq(body@);
            }
            let mut out: Vec<char> = Vec::new();
            out.push('f');
            out.push('n');
            out.push('(');
            proof {
                reveal_strlit("fn(");
                assert(out@ =~= "fn("@);
            }
            let mut names = render_names_chars(ps, 0);
            out.append(&mut names);
            out.push(')');
            let mut bodyc = render_body_chars(body, 0);
            out.append(&mut bodyc);
            proof {
                assert(out@ =~= "fn("@ + render_names(names_dv(ps@), 0) + seq![')'] + render_body(
                    dv_seq(body@),
                    0,
                ));
            }
            out
        },
    }
}

fn render_join_chars(es: &Vec<Value>, k: usize) -> (out: Vec<char>)
    requires
        k <= es@.len(),
        svs_wf(dv_seq(es@)),
    ensures
        out@ == render_join(dv_seq(es@), k as int),
    decreases es, 1int, es@.len() - k,
{
    proof {
        lemma_dv_seq(es@);
        lemma_svs_wf(dv_seq(es@));
    }
    let mut out: Vec<char> = Vec::new();
    if k >= es.len() {
        return out;
    }
    if k > 0 {
        out.push(' ');
    }
    proof {
        assert(dv_seq(es@)[k as int] == es@[k as int].dv());
        assert(sv_wf(dv_seq(es@)[k as int]));
    }
    let mut head = render_chars(&es[k]);
    out.append(&mut head);
    let mut rest = render_join_chars(es, k + 1);
    out.append(&mut rest);
    proof {
        if k > 0 {
            assert(out@ =~= seq![' '] + render_sv(dv_seq(es@)[k as int]) + render_join(
                dv_seq(es@),
                k as int + 1,
            ));
        } else {
            assert(out@ =~= Seq::<char>::empty() + render_sv(dv_seq(es@)[k as int]) + render_join(
                dv_seq(es@),
                k as int + 1,
            ));
        }
    }
    out
}

fn render_names_chars(ps: &Vec<String>, k: usize) -> (out: Vec<char>)
    requires
        k <= ps@.len(),
    ensures
        out@ == render_names(names_dv(ps@), k as int),
    decreases ps@.len() - k,
{
    let mut out: Vec<char> = Vec::new();
    if k >= ps.len() {
        return out;
    }
    push_str_chars(&mut out, &ps[k]);
    out.push(' ');
    let mut rest = render_names_chars(ps, k + 1);
    out.append(&mut rest);
    proof {
        assert(names_dv(ps@)[k as int] == ps@[k as int]@);
        assert(out@ =~= names_dv(ps@)[k as int] + seq![' '] + render_names(
            names_dv(ps@),
            k as int + 1,
        ));
    }
    out
}

fn render_body_chars(body: &Vec<Value>, k: usize) -> (out: Vec<char>)
    requires
        k <= body@.len(),
        svs_wf(dv_seq(body@)),
    ensures
        out@ == render_body(dv_seq(body@), k as int),
    decreases body, 1int, body@.len() - k,
{
    proof {
        lemma_dv_seq(body@);
        lemma_svs_wf(dv_seq(body@));
    }
    let mut out: Vec<char> = Vec::new();
    if k >= body.len() {
        return out;
    }
    out.push(' ');
    proof {
        assert(dv_seq(body@)[k as int] == body@[k as int].dv());
        assert(sv_wf(dv_seq(body@)[k as int]));
    }
    let mut head = render_chars(&body[k]);
    out.append(&mut head);
    let mut rest = render_body_chars(body, k + 1);
    out.append(&mut rest);
    proof {
        assert(out@ =~= seq![' '] + render_sv(dv_seq(body@)[k as int]) + render_body(
            dv_seq(body@),
            k as int + 1,
        ));
    }
    out
}

/// Relies on `String`'s `FromIterator` over characters: the returned
/// string holds exactly the characters of the vector, in order.
#[verifier::external_body]
fn chars_to_string(cs: Vec<char>) -> (r: String)
    ensures
        r@ == cs@,
{
    cs.into_iter().collect()
}

impl Value {
    /// The textual rendering of a value, as the shell shows it.
    pub fn to_text(&self) -> (r: String)
        requires
            sv_wf(self.dv()),
        ensures
            r@ == render_sv(self.dv()),
    {
        chars_to_string(render_chars(self))
    }
}

} // verus!

verus! {

proof fn lemma_sym_end_all(s: Seq<char>, i: int)
    requires
        0 <= i <= s.len(),
        forall|k: int| i <= k < s.len() ==> is_sym_char(#[trigger] s[k]),
    ensures
        sym_end(s, i) == s.len(),
    decreases s.len() - i,
{
    if i < s.len() {
        lemma_sym_end_all(s, i + 1);
    }
}

/// One direction of the display round trip, for symbols: rendering a
/// symbol and parsing the text back yields that symbol. The symbol
/// must be one the tokenizer could have produced: nonempty, of symbol
/// characters only, and not beginning like a numeric literal.
pub proof fn lemma_symbol_round_trip(s: Seq<char>)
    requires
        s.len() > 0,
        forall|i: int| 0 <= i < s.len() ==> is_sym_char(#[trigger] s[i]),
        !number_starts(s, 0),
    ensures
        sp_parse(render_sv(SpecVal::Symbol(s))) == Ok::<SpecVal, ParseErrorKind>(SpecVal::Symbol(s)),
{
    assert(render_sv(SpecVal::Symbol(s)) == s);
    lemma_sym_end_all(s, 0);
    assert(s.subrange(0, s.len() as int) =~= s);
    let ts = seq![STok::Symbol(s)];
    assert(spec_tokens(s, s.len() as int) == Ok::<Seq<STok>, char>(Seq::empty()));
    assert(spec_tokens(s, 0) == Ok::<Seq<STok>, char>(seq![STok::Symbol(s)] + Seq::empty()));
    assert(seq![STok::Symbol(s)] + Seq::<STok>::empty() =~= ts);
    assert(sp_expr(ts, 0) == Ok::<(SpecVal, int), ParseErrorKind>((SpecVal::Symbol(s), 1)));
    assert(sp_program(ts, 1) == Ok::<Seq<SpecVal>, ParseErrorKind>(Seq::empty()));
    assert(sp_program(ts, 0) == Ok::<Seq<SpecVal>, ParseErrorKind>(
        seq![SpecVal::Symbol(s)] + Seq::empty(),
    ));
    assert(seq![SpecVal::Symbol(s)] + Seq::<SpecVal>::empty() =~= seq![SpecVal::Symbol(s)]);
}

} // verus!

verus! {

proof fn lemma_digit_end_all(s: Seq<char>, i: int)
    requires
        0 <= i <= s.len(),
        forall|k: int| i <= k < s.len() ==> is_digit(#[trigger] s[k]),
    ensures
        digit_end(s, i) == s.len(),
    decreases s.len() - i,
{
    if i < s.len() {
        lemma_digit_end_all(s, i + 1);
    }
}

proof fn lemma_digits_text_digits(a: int)
    requires
        0 <= a,
    ensures
        forall|k: int|
            0 <= k < digits_text(a).len() ==> is_digit(#[trigger] digits_text(a)[k]),
        digits_text(a).len() >= 1,
    decreases a,
{
    if a < 10 {
        assert(is_digit(digit_char(a)));
    } else {
        lemma_digits_text_digits(a / 10);
        assert(is_digit(digit_char(a % 10)));
        assert forall|k: int|
            0 <= k < digits_text(a).len() implies is_digit(#[trigger] digits_text(a)[k]) by {
            if k < digits_text(a).len() - 1 {
                assert(digits_text(a)[k] == digits_text(a / 10)[k]);
            }
        }
    }
}

proof fn lemma_digits_val_agree(s1: Seq<char>, s2: Seq<char>, i: int, j: int)
    requires
        j <= s1.len(),
        j <= s2.len(),
        forall|k: int| i <= k < j ==> (#[trigger] s1[k]) == s2[k],
    ensures
        digits_val(s1, i, j) == digits_val(s2, i, j),
    decreases j - i,
{
    if i < j {
        assert(s1[j - 1] == s2[j - 1]);
        lemma_digits_val_agree(s1, s2, i, j - 1);
    }
}

proof fn lemma_digits_val_text(a: int)
    requires
        0 <= a,
    ensures
        digits_val(digits_text(a), 0, digits_text(a).len() as int) == a,
    decreases a,
{
    let s = digits_text(a);
    if a < 10 {
        assert(digit_val(digit_char(a)) == a);
        assert(digits_val(s, 0, 1) == digits_val(s, 0, 0) * 10 + digit_val(s[0]));
    } else {
        lemma_digits_val_text(a / 10);
        let sub = digits_text(a / 10);
        let l = sub.len() as int;
        assert(s == sub.push(digit_char(a % 10)));
        assert(s.len() == l + 1);
        assert forall|k: int| 0 <= k < l implies (#[trigger] s[k]) == sub[k] by {
            assert(s[k] == sub[k]);
        }
        lemma_digits_val_agree(s, sub, 0, l);
        assert(digits_val(s, 0, l + 1) == digits_val(s, 0, l) * 10 + digit_val(s[l]));
        assert(s[l] == digit_char(a % 10));
        assert(digit_val(digit_char(a % 10)) == a % 10);
        assert((a / 10) * 10 + a % 10 == a) by {
            vstd::arithmetic::div_mod::lemma_fundamental_div_mod(a, 10);
        }
    }
}

/// One direction of the display round trip, for whole numbers of at
/// most eighteen digits: rendering such a number and parsing the text
/// back yields the same number.
pub proof fn lemma_integer_round_trip(q: Num)
    requires
        q.wf(),
        q.d == 1,
        -1000000000000000000 < q.n < 1000000000000000000,
    ensures
        sp_parse(render_sv(SpecVal::Number(q))) == Ok::<SpecVal, ParseErrorKind>(
            SpecVal::Number(q),
        ),
{
    let a: int = if q.n < 0 {
        -(q.n as int)
    } else {
        q.n as int
    };
    let ds = digits_text(a);
    let s = render_sv(SpecVal::Number(q));
    lemma_digits_text_digits(a);
    lemma_digits_val_text(a);
    lemma_pow10_18();
    lemma_digits_len(a, 18);
    let j: int = if q.n < 0 {
        1
    } else {
        0
    };
    assert(s.len() == ds.len() + j);
    assert forall|k: int| j <= k < s.len() implies is_digit(#[trigger] s[k]) by {
        assert(s[k] == ds[k - j]);
    }
    if q.n < 0 {
        assert(s[0] == '-');
        assert(!is_digit('-'));
    }
    assert(!is_ws(s[0]) && s[0] != '(' && s[0] != ')');
    assert(is_digit(s[j]));
    assert(number_starts(s, 0));
    assert(lit_digits_from(s, 0) == j);
    lemma_digit_end_all(s, j);
    let p = digit_end(s, j);
    assert(p == s.len());
    assert(!lit_has_frac(s, 0));
    assert(number_end(s, 0) == s.len());
    assert(lit_digit_count(s, 0) == ds.len());
    assert(ds.len() <= 18);
    assert forall|k: int| j <= k < p implies k < s.len() && k < ds.len() + j && s[k] == ds[k - j] by {}
    lemma_digits_val_agree_shift(s, ds, j);
    assert(lit_mant(s, 0) == a);
    assert(lit_scale(s, 0) == 1);
    crate::num::lemma_reduce_props(
        if q.n < 0 {
            -a
        } else {
            a
        },
        1,
    );
    assert(spec_gcd(a as nat, 1) == 1) by {
        assert(a as nat % 1 == 0);
        assert(spec_gcd(a as nat, 1) == spec_gcd(1, 0));
        assert(spec_gcd(1, 0) == 1);
    }
    assert(a / 1 == a && 1 as int / 1 == 1) by {
        vstd::arithmetic::div_mod::lemma_fundamental_div_mod(a, 1);
        vstd::arithmetic::div_mod::lemma_fundamental_div_mod(1, 1);
    }
    assert(spec_reduce(q.n as int, 1) == (q.n as int, 1int));
    assert(lit_num(s, 0) == q);
    let ts = seq![STok::Number(q)];
    assert(spec_tokens(s, s.len() as int) == Ok::<Seq<STok>, char>(Seq::empty()));
    assert(spec_tokens(s, 0) == Ok::<Seq<STok>, char>(seq![STok::Number(q)] + Seq::empty()));
    assert(seq![STok::Number(q)] + Seq::<STok>::empty() =~= ts);
    assert(sp_expr(ts, 0) == Ok::<(SpecVal, int), ParseErrorKind>((SpecVal::Number(q), 1)));
    assert(sp_program(ts, 1) == Ok::<Seq<SpecVal>, ParseErrorKind>(Seq::empty()));
    assert(sp_program(ts, 0) == Ok::<Seq<SpecVal>, ParseErrorKind>(
        seq![SpecVal::Number(q)] + Seq::empty(),
    ));
    assert(seq![SpecVal::Number(q)] + Seq::<SpecVal>::empty() =~= seq![SpecVal::Number(q)]);
}

proof fn lemma_digits_val_agree_shift(s: Seq<char>, ds: Seq<char>, j: int)
    requires
        0 <= j,
        j + ds.len() <= s.len(),
        forall|k: int| j <= k < j + ds.len() ==> s[k] == #[trigger] ds[k - j],
    ensures
        digits_val(s, j, j + ds.len()) == digits_val(ds, 0, ds.len() as int),
    decreases ds.len(),
{
    if ds.len() > 0 {
        let d2 = ds.drop_last();
        assert forall|k: int| j <= k < j + d2.len() implies s[k] == #[trigger] d2[k - j] by {
            assert(d2[k - j] == ds[k - j]);
        }
        lemma_digits_val_agree_shift(s, d2, j);
        assert forall|k: int| 0 <= k < d2.len() implies (#[trigger] d2[k]) == ds[k] by {
            assert(d2[k] == ds[k]);
        }
        lemma_digits_val_agree(d2, ds, 0, d2.len() as int);
        assert(digits_val(d2, 0, d2.len() as int) == digits_val(ds, 0, ds.len() as int - 1));
        let kk = j + ds.len() - 1;
        assert(s[kk] == ds[kk - j]);
        assert(s[j + ds.len() - 1] == ds[ds.len() - 1]);
    }
}

} // verus!
