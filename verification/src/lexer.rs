use vstd::prelude::*;

use crate::num::Num;
use crate::num::lemma_reduce_props;
use crate::num::spec_make;

verus! {

broadcast use vstd::std_specs::vec::group_vec_axioms;

/// One lexical token.
#[derive(Debug, PartialEq)]
pub enum Token {
    Number(Num),
    Symbol(String),
    LParen,
    RParen,
}

/// The mathematical shape of a token.
#[verifier::ext_equal]
pub enum STok {
    Number(Num),
    Symbol(Seq<char>),
    LParen,
    RParen,
}

impl Token {
    pub open spec fn dv(&self) -> STok {
        match self {
            Token::Number(q) => STok::Number(*q),
            Token::Symbol(s) => STok::Symbol(s@),
            Token::LParen => STok::LParen,
            Token::RParen => STok::RParen,
        }
    }
}

/// The views of a token sequence.
pub open spec fn toks_dv(s: Seq<Token>) -> Seq<STok>
    decreases s.len(),
{
    if s.len() == 0 {
        Seq::empty()
    } else {
        seq![s[0].dv()] + toks_dv(s.subrange(1, s.len() as int))
    }
}

/// A character the grammar cannot place.
#[derive(Debug)]
pub struct TokenError {
    pub ch: char,
}

/// Whitespace separates tokens and is never one.
pub open spec fn is_ws(c: char) -> bool {
    c == ' ' || c == '\t' || c == '\n' || c == '\r' || c == '\u{b}' || c == '\u{c}'
}

pub open spec fn is_digit(c: char) -> bool {
    48 <= c as u32 <= 57
}

/// Any non-whitespace character other than a parenthesis may stand in
/// a symbol.
pub open spec fn is_sym_char(c: char) -> bool {
    !is_ws(c) && c != '(' && c != ')'
}

pub open spec fn digit_val(c: char) -> int {
    c as u32 - 48
}

/// The end of the maximal digit run starting at `i`.
pub open spec fn digit_end(s: Seq<char>, i: int) -> int
    decreases s.len() - i,
{
    if 0 <= i < s.len() && is_digit(s[i]) {
        digit_end(s, i + 1)
    } else {
        i
    }
}

/// The end of the maximal symbol-character run starting at `i`.
pub open spec fn sym_end(s: Seq<char>, i: int) -> int
    decreases s.len() - i,
{
    if 0 <= i < s.len() && is_sym_char(s[i]) {
        sym_end(s, i + 1)
    } else {
        i
    }
}

pub proof fn lemma_digit_end(s: Seq<char>, i: int)
    requires
        0 <= i <= s.len(),
    ensures
        i <= digit_end(s, i) <= s.len(),
        forall|k: int| i <= k < digit_end(s, i) ==> is_digit(#[trigger] s[k]),
    decreases s.len() - i,
{
    if i < s.len() && is_digit(s[i]) {
        lemma_digit_end(s, i + 1);
    }
}

pub proof fn lemma_sym_end(s: Seq<char>, i: int)
    requires
        0 <= i <= s.len(),
    ensures
        i <= sym_end(s, i) <= s.len(),
    decreases s.len() - i,
{
    if i < s.len() && is_sym_char(s[i]) {
        lemma_sym_end(s, i + 1);
    }
}

/// The value of the digit run `s[i..j]`, read in base ten.
pub open spec fn digits_val(s: Seq<char>, i: int, j: int) -> int
    decreases j - i,
{
    if i >= j {
        0
    } else {
        digits_val(s, i, j - 1) * 10 + digit_val(s[j - 1])
    }
}

pub open spec fn pow10(k: nat) -> int
    decreases k,
{
    if k == 0 {
        1
    } else {
        10 * pow10((k - 1) as nat)
    }
}

pub proof fn lemma_pow10_mono(a: nat, b: nat)
    requires
        a <= b,
    ensures
        1 <= pow10(a) <= pow10(b),
    decreases b,
{
    if b > 0 {
        if a == b {
            lemma_pow10_mono((a - 1) as nat, (b - 1) as nat);
        } else {
            lemma_pow10_mono(a, (b - 1) as nat);
        }
    }
}

pub proof fn lemma_pow10_18()
    ensures
        pow10(18) == 1000000000000000000,
{
    reveal_with_fuel(pow10, 20);
}

/// Does a numeric literal begin at `i`? An optional minus sign must
/// be followed by a digit.
pub open spec fn number_starts(s: Seq<char>, i: int) -> bool {
    let j = if s[i] == '-' {
        i + 1
    } else {
        i
    };
    j < s.len() && is_digit(s[j])
}

/// Where the digits of the integer part begin.
pub open spec fn lit_digits_from(s: Seq<char>, i: int) -> int {
    if s[i] == '-' {
        i + 1
    } else {
        i
    }
}

/// Does a fractional part follow the integer part?
pub open spec fn lit_has_frac(s: Seq<char>, i: int) -> bool {
    let p = digit_end(s, lit_digits_from(s, i));
    p + 1 < s.len() && s[p] == '.' && is_digit(s[p + 1])
}

/// One past the last character of the literal beginning at `i`.
pub open spec fn number_end(s: Seq<char>, i: int) -> int {
    let p = digit_end(s, lit_digits_from(s, i));
    if lit_has_frac(s, i) {
        digit_end(s, p + 1)
    } else {
        p
    }
}

/// How many digits the literal holds, integer and fractional parts
/// together.
pub open spec fn lit_digit_count(s: Seq<char>, i: int) -> int {
    let j = lit_digits_from(s, i);
    let p = digit_end(s, j);
    if lit_has_frac(s, i) {
        (p - j) + (digit_end(s, p + 1) - (p + 1))
    } else {
        p - j
    }
}

/// The digits of the literal read as one integer, the decimal point
/// ignored.
pub open spec fn lit_mant(s: Seq<char>, i: int) -> int {
    let j = lit_digits_from(s, i);
    let p = digit_end(s, j);
    if lit_has_frac(s, i) {
        let q = digit_end(s, p + 1);
        digits_val(s, j, p) * pow10((q - (p + 1)) as nat) + digits_val(s, p + 1, q)
    } else {
        digits_val(s, j, p)
    }
}

/// The power of ten the mantissa is scaled down by.
pub open spec fn lit_scale(s: Seq<char>, i: int) -> int {
    let p = digit_end(s, lit_digits_from(s, i));
    if lit_has_frac(s, i) {
        pow10((digit_end(s, p + 1) - (p + 1)) as nat)
    } else {
        1
    }
}

/// The rational value of the literal beginning at `i`.
pub open spec fn lit_num(s: Seq<char>, i: int) -> Num {
    let m = if s[i] == '-' {
        -lit_mant(s, i)
    } else {
        lit_mant(s, i)
    };
    match spec_make(m, lit_scale(s, i)) {
        Some(q) => q,
        None => Num { n: 0, d: 1 },
    }
}

pub open spec fn tok_cons(t: STok, r: Result<Seq<STok>, char>) -> Result<Seq<STok>, char> {
    match r {
        Ok(ts) => Ok(seq![t] + ts),
        Err(c) => Err(c),
    }
}

/// The token sequence of `s` from position `i` on: whitespace is
/// skipped; a parenthesis is its own token; a numeric literal takes
/// priority over a symbol; a symbol is a maximal run of symbol
/// characters. A literal of more than eighteen digits does not fit
/// the numeric type and is refused, blamed on its first character.
pub open spec fn spec_tokens(s: Seq<char>, i: int) -> Result<Seq<STok>, char>
    decreases s.len() - i,
        when 0 <= i <= s.len()
        via spec_tokens_dec
{
    if i >= s.len() {
        Ok(Seq::empty())
    } else if is_ws(s[i]) {
        spec_tokens(s, i + 1)
    } else if s[i] == '(' {
        tok_cons(STok::LParen, spec_tokens(s, i + 1))
    } else if s[i] == ')' {
        tok_cons(STok::RParen, spec_tokens(s, i + 1))
    } else if number_starts(s, i) {
        if lit_digit_count(s, i) > 18 {
            Err(s[i])
        } else {
            tok_cons(STok::Number(lit_num(s, i)), spec_tokens(s, number_end(s, i)))
        }
    } else {
        tok_cons(STok::Symbol(s.subrange(i, sym_end(s, i))), spec_tokens(s, sym_end(s, i)))
    }
}

#[via_fn]
proof fn spec_tokens_dec(s: Seq<char>, i: int) {
    if 0 <= i < s.len() {
        if !is_ws(s[i]) && s[i] != '(' && s[i] != ')' {
            if number_starts(s, i) {
                let j = lit_digits_from(s, i);
                assert(is_digit(s[j]));
                assert(digit_end(s, j) == digit_end(s, j + 1));
                lemma_digit_end(s, j + 1);
                let p = digit_end(s, j);
                assert(p >= j + 1);
                if lit_has_frac(s, i) {
                    assert(is_digit(s[p + 1]));
                    assert(digit_end(s, p + 1) == digit_end(s, p + 2));
                    lemma_digit_end(s, p + 2);
                }
            } else {
                assert(is_sym_char(s[i]));
                assert(sym_end(s, i) == sym_end(s, i + 1));
                lemma_sym_end(s, i + 1);
            }
        }
    }
}

} // verus!

verus! {

/// Numbers carried by a token stream are reduced rationals in range.
pub open spec fn stok_wf(t: STok) -> bool {
    match t {
        STok::Number(q) => q.wf(),
        _ => true,
    }
}

pub open spec fn stoks_wf(ts: Seq<STok>) -> bool {
    forall|k: int| 0 <= k < ts.len() ==> stok_wf(#[trigger] ts[k])
}

fn ws_exec(c: char) -> (r: bool)
    ensures
        r == is_ws(c),
{
    c == ' ' || c == '\t' || c == '\n' || c == '\r' || c == '\u{b}' || c == '\u{c}'
}

fn digit_exec(c: char) -> (r: bool)
    ensures
        r == is_digit(c),
{
    let u = c as u32;
    48 <= u && u <= 57
}

fn digit_scan(cs: &Vec<char>, i: usize) -> (r: usize)
    requires
        i <= cs@.len(),
    ensures
        r == digit_end(cs@, i as int),
        i <= r <= cs@.len(),
    decreases cs@.len() - i,
{
    if i < cs.len() && digit_exec(cs[i]) {
        digit_scan(cs, i + 1)
    } else {
        i
    }
}

fn sym_scan(cs: &Vec<char>, i: usize) -> (r: usize)
    requires
        i <= cs@.len(),
    ensures
        r == sym_end(cs@, i as int),
        i <= r <= cs@.len(),
    decreases cs@.len() - i,
{
    if i < cs.len() && !ws_exec(cs[i]) && cs[i] != '(' && cs[i] != ')' {
        sym_scan(cs, i + 1)
    } else {
        i
    }
}

/// Reads the digit run `cs[from..to]` onto the accumulator `acc`,
/// which holds at most `t` digits' worth of value already.
fn read_digits(cs: &Vec<char>, from: usize, to: usize, acc: i64, Ghost(t): Ghost<nat>) -> (m: i64)
    requires
        from <= to <= cs@.len(),
        forall|k: int| from <= k < to ==> is_digit(#[trigger] cs@[k]),
        0 <= acc < pow10(t),
        t + (to - from) <= 18,
    ensures
        m == acc * pow10((to - from) as nat) + digits_val(cs@, from as int, to as int),
        0 <= m < pow10((t + (to - from)) as nat),
    decreases to - from,
{
    if from == to {
        proof {
            assert(pow10(0) == 1);
        }
        acc
    } else {
        let m1 = read_digits(cs, from, to - 1, acc, Ghost(t));
        let c = cs[to - 1];
        let d = (c as u32 - 48) as i64;
        proof {
            lemma_pow10_mono((t + (to - from) - 1) as nat, 17);
            lemma_pow10_18();
            assert(pow10(17) * 10 == pow10(18));
            assert(pow10((to - from) as nat) == 10 * pow10((to - from - 1) as nat));
            assert(pow10((t + (to - from)) as nat) == 10 * pow10((t + (to - from) - 1) as nat));
            assert(digits_val(cs@, from as int, to as int) == digits_val(
                cs@,
                from as int,
                to as int - 1,
            ) * 10 + digit_val(cs@[to as int - 1]));
            assert(m1 * 10 + d == acc * pow10((to - from) as nat) + digits_val(
                cs@,
                from as int,
                to as int,
            )) by (nonlinear_arith)
                requires
                    m1 == acc * pow10((to - from - 1) as nat) + digits_val(
                        cs@,
                        from as int,
                        to as int - 1,
                    ),
                    pow10((to - from) as nat) == 10 * pow10((to - from - 1) as nat),
                    digits_val(cs@, from as int, to as int) == digits_val(
                        cs@,
                        from as int,
                        to as int - 1,
                    ) * 10 + digit_val(cs@[to as int - 1]),
                    d == digit_val(cs@[to as int - 1]),
            ;
        }
        m1 * 10 + d
    }
}

pub(crate) fn pow10_exec(k: usize) -> (r: i64)
    requires
        k <= 18,
    ensures
        r == pow10(k as nat),
        1 <= r,
    decreases k,
{
    if k == 0 {
        1
    } else {
        let p = pow10_exec(k - 1);
        proof {
            lemma_pow10_mono((k - 1) as nat, 17);
            lemma_pow10_18();
            assert(pow10(17) * 10 == pow10(18));
        }
        10 * p
    }
}

fn str_chars(s: &str) -> (v: Vec<char>)
    ensures
        v@ == s@,
{
    let len = s.unicode_len();
    let mut v: Vec<char> = Vec::new();
    let mut i: usize = 0;
    while i < len
        invariant
            i <= len,
            len == s@.len(),
            v@ == s@.subrange(0, i as int),
        decreases len - i,
    {
        let c = s.get_char(i);
        v.push(c);
        proof {
            assert(v@ =~= s@.subrange(0, i as int + 1));
        }
        i += 1;
    }
    proof {
        assert(s@.subrange(0, s@.len() as int) =~= s@);
    }
    v
}

/// Puts a token in front of an already-lexed tail.
fn cons_tok(t: Token, r: Result<Vec<Token>, TokenError>) -> (res: Result<Vec<Token>, TokenError>)
    ensures
        match r {
            Ok(v) => res matches Ok(v2) && toks_dv(v2@) == seq![t.dv()] + toks_dv(v@),
            Err(e) => res matches Err(e2) && e2.ch == e.ch,
        },
{
    match r {
        Ok(mut v) => {
            let ghost v0 = v@;
            let ghost t0 = t.dv();
            v.insert(0, t);
            proof {
                assert(v@.subrange(1, v@.len() as int) =~= v0);
                assert(v@[0].dv() == t0);
                assert(toks_dv(v@) == seq![t0] + toks_dv(v0));
            }
            Ok(v)
        },
        Err(e) => Err(e),
    }
}

} // verus!

verus! {

#[verifier::rlimit(100)]
fn tok_from(text: &str, cs: &Vec<char>, i: usize) -> (r: Result<Vec<Token>, TokenError>)
    requires
        cs@ == text@,
        i <= cs@.len(),
    ensures
        match spec_tokens(cs@, i as int) {
            Ok(ts) => r matches Ok(v) && toks_dv(v@) == ts && stoks_wf(ts),
            Err(c) => r matches Err(e) && e.ch == c,
        },
    decreases cs@.len() - i,
{
    if i >= cs.len() {
        let v: Vec<Token> = Vec::new();
        proof {
            assert(toks_dv(v@) == Seq::<STok>::empty());
        }
        return Ok(v);
    }
    let c = cs[i];
    if ws_exec(c) {
        return tok_from(text, cs, i + 1);
    }
    if c == '(' {
        return cons_tok(Token::LParen, tok_from(text, cs, i + 1));
    }
    if c == ')' {
        return cons_tok(Token::RParen, tok_from(text, cs, i + 1));
    }
    let neg = c == '-';
    let j = if neg {
        i + 1
    } else {
        i
    };
    let starts = j < cs.len() && digit_exec(cs[j]);
    if starts {
        proof {
            assert(number_starts(cs@, i as int));
            assert(j as int == lit_digits_from(cs@, i as int));
            assert(digit_end(cs@, j as int) == digit_end(cs@, j as int + 1));
            lemma_digit_end(cs@, j as int + 1);
        }
        let p = digit_scan(cs, j);
        let has_frac = p < cs.len() && cs[p] == '.' && p + 1 < cs.len() && digit_exec(cs[p + 1]);
        proof {
            assert(has_frac == lit_has_frac(cs@, i as int));
            if has_frac {
                assert(digit_end(cs@, p as int + 1) == digit_end(cs@, p as int + 2));
                lemma_digit_end(cs@, p as int + 2);
            }
        }
        let q = if has_frac {
            digit_scan(cs, p + 1)
        } else {
            p
        };
        let intlen = p - j;
        let fraclen = if has_frac {
            q - (p + 1)
        } else {
            0
        };
        proof {
            assert(lit_digit_count(cs@, i as int) == intlen + fraclen);
        }
        if intlen + fraclen > 18 {
            return Err(TokenError { ch: c });
        }
        proof {
            lemma_digit_end(cs@, j as int);
            if has_frac {
                lemma_digit_end(cs@, p as int + 1);
            }
            assert(pow10(0) == 1);
        }
        let m_int = read_digits(cs, j, p, 0, Ghost(0nat));
        let m = if has_frac {
            read_digits(cs, p + 1, q, m_int, Ghost((p - j) as nat))
        } else {
            m_int
        };
        let sc = if has_frac {
            pow10_exec(q - (p + 1))
        } else {
            1
        };
        proof {
            assert(m == lit_mant(cs@, i as int));
            assert(sc == lit_scale(cs@, i as int));
            lemma_pow10_mono((intlen + fraclen) as nat, 18);
            lemma_pow10_mono(fraclen as nat, 18);
            lemma_pow10_18();
            lemma_reduce_props(
                if neg {
                    -m as int
                } else {
                    m as int
                },
                sc as int,
            );
        }
        let mm = if neg {
            -m
        } else {
            m
        };
        let qn = Num::ratio(mm, sc).unwrap();
        proof {
            assert(qn == lit_num(cs@, i as int));
            assert(qn.wf());
        }
        let end = q;
        proof {
            assert(end == number_end(cs@, i as int));
            assert(end > i);
        }
        return cons_tok(Token::Number(qn), tok_from(text, cs, end));
    }
    proof {
        assert(!number_starts(cs@, i as int));
        assert(is_sym_char(cs@[i as int]));
        assert(sym_end(cs@, i as int) == sym_end(cs@, i as int + 1));
        lemma_sym_end(cs@, i as int + 1);
    }
    let e = sym_scan(cs, i);
    let stext = text.substring_char(i, e).to_owned();
    proof {
        assert(stext@ == cs@.subrange(i as int, e as int));
    }
    cons_tok(Token::Symbol(stext), tok_from(text, cs, e))
}

/// Breaks the program text into tokens, or reports the character that
/// fits no rule of the grammar.
pub fn tokenize(program: &str) -> (r: Result<Vec<Token>, TokenError>)
    ensures
        match spec_tokens(program@, 0) {
            Ok(ts) => r matches Ok(v) && toks_dv(v@) == ts && stoks_wf(ts),
            Err(c) => r matches Err(e) && e.ch == c,
        },
{
    let cs = str_chars(program);
    tok_from(program, &cs, 0)
}

} // verus!

verus! {

/// `toks_dv` maps `Token::dv` over the sequence, element by element.
pub proof fn lemma_toks_dv(s: Seq<Token>)
    ensures
        toks_dv(s).len() == s.len(),
        forall|i: int| 0 <= i < s.len() ==> toks_dv(s)[i] == #[trigger] s[i].dv(),
    decreases s.len(),
{
    if s.len() > 0 {
        let tail = s.subrange(1, s.len() as int);
        lemma_toks_dv(tail);
        assert forall|i: int| 0 <= i < s.len() implies toks_dv(s)[i] == #[trigger] s[i].dv() by {
            if i > 0 {
                assert(tail[i - 1] == s[i]);
                assert(toks_dv(tail)[i - 1] == tail[i - 1].dv());
            }
        }
    }
}

} // verus!
