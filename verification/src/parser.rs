//! Formula syntax: expression trees, tokens, and the parser.

use vstd::prelude::*;

use vstd::string::StrSliceExecFns;

use crate::cell::Coord;
use crate::error::SpreadsheetError;

verus! {

/// A binary arithmetic operator of the formula grammar.
#[derive(Debug, Clone, Copy, PartialEq, Eq, Structural)]
pub enum BinOp {
    Add,
    Sub,
    Mul,
    Div,
}

/// An expression tree produced by parsing a formula: numeric literals, cell
/// references, and binary operations.
#[derive(Debug)]
pub enum Expr {
    Num(i64),
    Ref(Coord),
    Bin(BinOp, Box<Expr>, Box<Expr>),
}

impl Expr {
    /// The set of coordinates the expression reads from.
    pub open spec fn refs(self) -> Set<Coord>
        decreases self,
    {
        match self {
            Expr::Num(_) => Set::empty(),
            Expr::Ref(c) => Set::empty().insert(c),
            Expr::Bin(_, l, r) => l.refs().union(r.refs()),
        }
    }

    /// A structural height, used as a termination measure by the evaluator.
    pub open spec fn height(self) -> nat
        decreases self,
    {
        match self {
            Expr::Num(_) => 1,
            Expr::Ref(_) => 1,
            Expr::Bin(_, l, r) => 1 + if l.height() > r.height() {
                l.height()
            } else {
                r.height()
            },
        }
    }
}

/// An exact copy of an expression tree.
pub fn clone_expr(e: &Expr) -> (r: Expr)
    ensures
        r == *e,
    decreases *e,
{
    match e {
        Expr::Num(n) => Expr::Num(*n),
        Expr::Ref(c) => Expr::Ref(*c),
        Expr::Bin(op, l, r) => Expr::Bin(*op, Box::new(clone_expr(l)), Box::new(clone_expr(r))),
    }
}

/// One lexical token of the formula grammar.
#[derive(Debug, Clone, Copy, PartialEq, Eq, Structural)]
pub enum Token {
    Num(i64),
    CellRef(Coord),
    Plus,
    Minus,
    Star,
    Slash,
    LParen,
    RParen,
}

pub open spec fn is_digit(c: char) -> bool {
    48 <= c as u32 <= 57
}

pub open spec fn is_upper(c: char) -> bool {
    65 <= c as u32 <= 90
}

pub open spec fn is_space(c: char) -> bool {
    c as u32 == 32 || c as u32 == 9
}

/// The first position at or after `i` that does not hold a digit.
pub open spec fn digits_end(s: Seq<char>, i: int) -> int
    decreases s.len() - i,
        when 0 <= i <= s.len()
{
    if i < s.len() && is_digit(s[i]) {
        digits_end(s, i + 1)
    } else {
        i
    }
}

/// The first position at or after `i` that does not hold an upper-case
/// letter.
pub open spec fn letters_end(s: Seq<char>, i: int) -> int
    decreases s.len() - i,
        when 0 <= i <= s.len()
{
    if i < s.len() && is_upper(s[i]) {
        letters_end(s, i + 1)
    } else {
        i
    }
}

pub proof fn lemma_digits_end_bounds(s: Seq<char>, i: int)
    requires
        0 <= i <= s.len(),
    ensures
        i <= digits_end(s, i) <= s.len(),
    decreases s.len() - i,
{
    if i < s.len() && is_digit(s[i]) {
        lemma_digits_end_bounds(s, i + 1);
    }
}

pub proof fn lemma_letters_end_bounds(s: Seq<char>, i: int)
    requires
        0 <= i <= s.len(),
    ensures
        i <= letters_end(s, i) <= s.len(),
    decreases s.len() - i,
{
    if i < s.len() && is_upper(s[i]) {
        lemma_letters_end_bounds(s, i + 1);
    }
}

/// The value of the digit run `s[i..j]` as an `i64`, `None` on overflow.
pub open spec fn num_val(s: Seq<char>, i: int, j: int) -> Option<i64>
    decreases j - i,
{
    if j <= i {
        Some(0)
    } else {
        match num_val(s, i, j - 1) {
            None => None,
            Some(a) => match a.checked_mul(10) {
                None => None,
                Some(b) => b.checked_add((s[j - 1] as u32 - 48) as i64),
            },
        }
    }
}

/// The value of the digit run `s[i..j]` as a `usize`, `None` on overflow.
pub open spec fn row_val(s: Seq<char>, i: int, j: int) -> Option<usize>
    decreases j - i,
{
    if j <= i {
        Some(0)
    } else {
        match row_val(s, i, j - 1) {
            None => None,
            Some(a) => match a.checked_mul(10) {
                None => None,
                Some(b) => b.checked_add((s[j - 1] as u32 - 48) as usize),
            },
        }
    }
}

/// The value of the letter run `s[i..j]` read base 26 with `A` as 1, so that
/// `A` is column 1, `Z` column 26, `AA` column 27; `None` on overflow.
pub open spec fn col_val(s: Seq<char>, i: int, j: int) -> Option<usize>
    decreases j - i,
{
    if j <= i {
        Some(0)
    } else {
        match col_val(s, i, j - 1) {
            None => None,
            Some(a) => match a.checked_mul(26) {
                None => None,
                Some(b) => b.checked_add((s[j - 1] as u32 - 64) as usize),
            },
        }
    }
}

/// The token list of the byte text from position `i` on; `None` on an
/// unknown byte, a malformed cell name, or a literal out of range.
pub open spec fn tokenize_from(s: Seq<char>, i: int) -> Option<Seq<Token>>
    decreases s.len() - i,
        when 0 <= i <= s.len()
        via tokenize_from_decreases
{
    if i >= s.len() {
        Some(Seq::empty())
    } else if is_space(s[i]) {
        tokenize_from(s, i + 1)
    } else if is_digit(s[i]) {
        let j = digits_end(s, i);
        match num_val(s, i, j) {
            None => None,
            Some(v) => match tokenize_from(s, j) {
                None => None,
                Some(rest) => Some(seq![Token::Num(v)] + rest),
            },
        }
    } else if is_upper(s[i]) {
        let j = letters_end(s, i);
        let k = digits_end(s, j);
        if k == j {
            None
        } else {
            match (col_val(s, i, j), row_val(s, j, k)) {
                (Some(cv), Some(rv)) => if cv >= 1 && rv >= 1 {
                    let c = Coord { row: (rv - 1) as usize, col: (cv - 1) as usize };
                    match tokenize_from(s, k) {
                        None => None,
                        Some(rest) => Some(seq![Token::CellRef(c)] + rest),
                    }
                } else {
                    None
                },
                _ => None,
            }
        }
    } else if s[i] as u32 == 43 || s[i] as u32 == 45 || s[i] as u32 == 42 || s[i] as u32 == 47
        || s[i] as u32 == 40 || s[i] as u32 == 41 {
        let t = if s[i] as u32 == 43 {
            Token::Plus
        } else if s[i] as u32 == 45 {
            Token::Minus
        } else if s[i] as u32 == 42 {
            Token::Star
        } else if s[i] as u32 == 47 {
            Token::Slash
        } else if s[i] as u32 == 40 {
            Token::LParen
        } else {
            Token::RParen
        };
        match tokenize_from(s, i + 1) {
            None => None,
            Some(rest) => Some(seq![t] + rest),
        }
    } else {
        None
    }
}

#[via_fn]
proof fn tokenize_from_decreases(s: Seq<char>, i: int) {
    if 0 <= i < s.len() {
        if is_digit(s[i]) {
            assert(digits_end(s, i) == digits_end(s, i + 1));
            lemma_digits_end_bounds(s, i + 1);
        } else if is_upper(s[i]) {
            assert(letters_end(s, i) == letters_end(s, i + 1));
            lemma_letters_end_bounds(s, i + 1);
            lemma_digits_end_bounds(s, letters_end(s, i));
        }
    }
}

/// The offending substring of a text the tokenizer rejects: the lexeme at
/// the position where scanning fails — the unknown symbol, the out-of-range
/// literal, or the malformed cell name. Meaningful only where
/// `tokenize_from` is `None`.
pub open spec fn tokenize_err(s: Seq<char>, i: int) -> Seq<char>
    decreases s.len() - i,
        when 0 <= i <= s.len()
        via tokenize_err_decreases
{
    if i >= s.len() {
        Seq::empty()
    } else if is_space(s[i]) {
        tokenize_err(s, i + 1)
    } else if is_digit(s[i]) {
        let j = digits_end(s, i);
        match num_val(s, i, j) {
            None => s.subrange(i, j),
            Some(v) => tokenize_err(s, j),
        }
    } else if is_upper(s[i]) {
        let j = letters_end(s, i);
        let k = digits_end(s, j);
        if k == j {
            s.subrange(i, j)
        } else {
            match (col_val(s, i, j), row_val(s, j, k)) {
                (Some(cv), Some(rv)) => if cv >= 1 && rv >= 1 {
                    tokenize_err(s, k)
                } else {
                    s.subrange(i, k)
                },
                _ => s.subrange(i, k),
            }
        }
    } else if s[i] as u32 == 43 || s[i] as u32 == 45 || s[i] as u32 == 42 || s[i] as u32 == 47
        || s[i] as u32 == 40 || s[i] as u32 == 41 {
        tokenize_err(s, i + 1)
    } else {
        s.subrange(i, i + 1)
    }
}

#[via_fn]
proof fn tokenize_err_decreases(s: Seq<char>, i: int) {
    if 0 <= i < s.len() {
        if is_digit(s[i]) {
            assert(digits_end(s, i) == digits_end(s, i + 1));
            lemma_digits_end_bounds(s, i + 1);
        } else if is_upper(s[i]) {
            assert(letters_end(s, i) == letters_end(s, i + 1));
            lemma_letters_end_bounds(s, i + 1);
            lemma_digits_end_bounds(s, letters_end(s, i));
        }
    }
}

/// The substring an `InvalidFormula` error carries: the offending lexeme
/// where tokenization fails, and the whole text where the tokens are sound
/// but the grammar rejects them (an unbalanced parenthesis or a dangling
/// operator is a fault of the formula as a whole).
pub open spec fn formula_err_detail(s: Seq<char>) -> Seq<char> {
    match tokenize_from(s, 0) {
        None => tokenize_err(s, 0),
        Some(_) => s,
    }
}

/// A primary expression: a literal, a reference, or a parenthesized
/// expression. Results carry the position after what was consumed, which
/// always moves forward and stays in bounds.
pub open spec fn parse_primary(ts: Seq<Token>, i: int) -> Option<(Expr, int)>
    decreases ts.len() - i, 0nat,
        when 0 <= i <= ts.len()
{
    if i >= ts.len() {
        None
    } else {
        match ts[i] {
            Token::Num(n) => Some((Expr::Num(n), i + 1)),
            Token::CellRef(c) => Some((Expr::Ref(c), i + 1)),
            Token::LParen => match parse_expr(ts, i + 1) {
                None => None,
                Some((e, j)) => if i + 1 < j <= ts.len() && j < ts.len() && ts[j]
                    == Token::RParen {
                    Some((e, j + 1))
                } else {
                    None
                },
            },
            _ => None,
        }
    }
}

/// A product: primaries joined left to right by `*` and `/`.
pub open spec fn parse_term(ts: Seq<Token>, i: int) -> Option<(Expr, int)>
    decreases ts.len() - i, 2nat,
        when 0 <= i <= ts.len()
{
    match parse_primary(ts, i) {
        None => None,
        Some((e, j)) => if i < j <= ts.len() {
            parse_term_rest(ts, e, j)
        } else {
            None
        },
    }
}

/// The `* /` continuations of a product already begun.
pub open spec fn parse_term_rest(ts: Seq<Token>, left: Expr, i: int) -> Option<(Expr, int)>
    decreases ts.len() - i, 1nat,
        when 0 <= i <= ts.len()
{
    if i < ts.len() && (ts[i] == Token::Star || ts[i] == Token::Slash) {
        let op = if ts[i] == Token::Star {
            BinOp::Mul
        } else {
            BinOp::Div
        };
        match parse_primary(ts, i + 1) {
            None => None,
            Some((rhs, j)) => if i + 1 < j <= ts.len() {
                parse_term_rest(ts, Expr::Bin(op, Box::new(left), Box::new(rhs)), j)
            } else {
                None
            },
        }
    } else {
        Some((left, i))
    }
}

/// A sum: products joined left to right by `+` and `-`.
pub open spec fn parse_expr(ts: Seq<Token>, i: int) -> Option<(Expr, int)>
    decreases ts.len() - i, 4nat,
        when 0 <= i <= ts.len()
{
    match parse_term(ts, i) {
        None => None,
        Some((e, j)) => if i < j <= ts.len() {
            parse_expr_rest(ts, e, j)
        } else {
            None
        },
    }
}

/// The `+ -` continuations of a sum already begun.
pub open spec fn parse_expr_rest(ts: Seq<Token>, left: Expr, i: int) -> Option<(Expr, int)>
    decreases ts.len() - i, 3nat,
        when 0 <= i <= ts.len()
{
    if i < ts.len() && (ts[i] == Token::Plus || ts[i] == Token::Minus) {
        let op = if ts[i] == Token::Plus {
            BinOp::Add
        } else {
            BinOp::Sub
        };
        match parse_term(ts, i + 1) {
            None => None,
            Some((rhs, j)) => if i + 1 < j <= ts.len() {
                parse_expr_rest(ts, Expr::Bin(op, Box::new(left), Box::new(rhs)), j)
            } else {
                None
            },
        }
    } else {
        Some((left, i))
    }
}

/// What a whole formula text parses to: its token list read as one
/// expression with nothing left over.
pub open spec fn parse_formula_spec(s: Seq<char>) -> Option<Expr> {
    match tokenize_from(s, 0) {
        None => None,
        Some(ts) => match parse_expr(ts, 0) {
            None => None,
            Some((e, j)) => if j == ts.len() {
                Some(e)
            } else {
                None
            },
        },
    }
}

/// Reads the formula's tokens left to right, mirroring `tokenize_from`.
pub fn tokenize(src: &str) -> (r: Result<Vec<Token>, SpreadsheetError>)
    ensures
        match r {
            Ok(ts) => tokenize_from(src@, 0) == Some(ts@),
            Err(er) => (er matches SpreadsheetError::InvalidFormula(d) && d@ == tokenize_err(
                src@,
                0,
            )) && tokenize_from(src@, 0) is None,
        },
{
    let ghost s = src@;
    let n = src.unicode_len();
    let mut acc: Vec<Token> = Vec::new();
    let mut i: usize = 0;
    while i < n
        invariant
            s == src@,
            n == s.len(),
            i <= n,
            match tokenize_from(s, i as int) {
                Some(rest) => tokenize_from(s, 0) == Some(acc@ + rest),
                None => tokenize_from(s, 0) is None,
            },
            tokenize_from(s, i as int) is None ==> tokenize_err(s, 0) == tokenize_err(
                s,
                i as int,
            ),
        decreases n - i,
    {
        let ghost acc_pre = acc@;
        let c = src.get_char(i) as u32;
        if c == 32 || c == 9 {
            i = i + 1;
        } else if 48 <= c && c <= 57 {
            let mut j = i;
            let mut val: i64 = 0;
            let mut ok = true;
            while j < n && 48 <= src.get_char(j) as u32 && src.get_char(j) as u32 <= 57
                invariant
                    s == src@,
                    n == s.len(),
                    i <= j <= n,
                    forall|q: int| i <= q < j ==> is_digit(s[q]),
                    digits_end(s, i as int) == digits_end(s, j as int),
                    if ok {
                        num_val(s, i as int, j as int) == Some(val)
                    } else {
                        num_val(s, i as int, j as int) is None
                    },
                decreases n - j,
            {
                if ok {
                    match val.checked_mul(10) {
                        Some(v2) => match v2.checked_add((src.get_char(j) as u32 - 48) as i64) {
                            Some(v3) => {
                                val = v3;
                            },
                            None => {
                                ok = false;
                            },
                        },
                        None => {
                            ok = false;
                        },
                    }
                }
                j = j + 1;
            }
            proof {
                assert(digits_end(s, j as int) == j);
            }
            if !ok {
                proof {
                    assert(is_digit(s[i as int]));
                    assert(digits_end(s, i as int) == j);
                    assert(tokenize_from(s, i as int) is None);
                    assert(tokenize_err(s, i as int) == s.subrange(i as int, j as int));
                }
                let d = src.substring_char(i, j).to_owned();
                return Err(SpreadsheetError::InvalidFormula(d));
            }
            proof {
                assert(is_digit(s[i as int]));
                assert(digits_end(s, i as int) == j);
            }
            acc.push(Token::Num(val));
            proof {
                assert(acc@ =~= acc_pre.push(Token::Num(val)));
                match tokenize_from(s, j as int) {
                    Some(rest) => {
                        assert(acc_pre + (seq![Token::Num(val)] + rest) =~= acc@ + rest);
                    },
                    None => {},
                }
            }
            i = j;
        } else if 65 <= c && c <= 90 {
            let mut j = i;
            let mut cv: usize = 0;
            let mut col_ok = true;
            while j < n && 65 <= src.get_char(j) as u32 && src.get_char(j) as u32 <= 90
                invariant
                    s == src@,
                    n == s.len(),
                    i <= j <= n,
                    forall|q: int| i <= q < j ==> is_upper(s[q]),
                    letters_end(s, i as int) == letters_end(s, j as int),
                    if col_ok {
                        col_val(s, i as int, j as int) == Some(cv)
                    } else {
                        col_val(s, i as int, j as int) is None
                    },
                decreases n - j,
            {
                if col_ok {
                    match cv.checked_mul(26) {
                        Some(v2) => match v2.checked_add((src.get_char(j) as u32 - 64) as usize) {
                            Some(v3) => {
                                cv = v3;
                            },
                            None => {
                                col_ok = false;
                            },
                        },
                        None => {
                            col_ok = false;
                        },
                    }
                }
                j = j + 1;
            }
            proof {
                assert(letters_end(s, j as int) == j);
            }
            let mut k = j;
            let mut rv: usize = 0;
            let mut row_ok = true;
            while k < n && 48 <= src.get_char(k) as u32 && src.get_char(k) as u32 <= 57
                invariant
                    s == src@,
                    n == s.len(),
                    j <= k <= n,
                    forall|q: int| j <= q < k ==> is_digit(s[q]),
                    digits_end(s, j as int) == digits_end(s, k as int),
                    if row_ok {
                        row_val(s, j as int, k as int) == Some(rv)
                    } else {
                        row_val(s, j as int, k as int) is None
                    },
                decreases n - k,
            {
                if row_ok {
                    match rv.checked_mul(10) {
                        Some(v2) => match v2.checked_add((src.get_char(k) as u32 - 48) as usize) {
                            Some(v3) => {
                                rv = v3;
                            },
                            None => {
                                row_ok = false;
                            },
                        },
                        None => {
                            row_ok = false;
                        },
                    }
                }
                k = k + 1;
            }
            proof {
                assert(digits_end(s, k as int) == k);
            }
            proof {
                assert(is_upper(s[i as int]));
                assert(letters_end(s, i as int) == j);
                assert(digits_end(s, j as int) == k);
            }
            if k == j {
                proof {
                    assert(tokenize_from(s, i as int) is None);
                    assert(tokenize_err(s, i as int) == s.subrange(i as int, j as int));
                }
                let d = src.substring_char(i, j).to_owned();
                return Err(SpreadsheetError::InvalidFormula(d));
            }
            if !col_ok || !row_ok {
                proof {
                    assert(tokenize_from(s, i as int) is None);
                    assert(tokenize_err(s, i as int) == s.subrange(i as int, k as int));
                }
                let d = src.substring_char(i, k).to_owned();
                return Err(SpreadsheetError::InvalidFormula(d));
            }
            if cv < 1 || rv < 1 {
                proof {
                    assert(tokenize_from(s, i as int) is None);
                    assert(tokenize_err(s, i as int) == s.subrange(i as int, k as int));
                }
                let d = src.substring_char(i, k).to_owned();
                return Err(SpreadsheetError::InvalidFormula(d));
            }
            let coord = Coord { row: rv - 1, col: cv - 1 };
            acc.push(Token::CellRef(coord));
            proof {
                assert(acc@ =~= acc_pre.push(Token::CellRef(coord)));
                match tokenize_from(s, k as int) {
                    Some(rest) => {
                        assert(acc_pre + (seq![Token::CellRef(coord)] + rest) =~= acc@ + rest);
                    },
                    None => {},
                }
            }
            i = k;
        } else if c == 43 || c == 45 || c == 42 || c == 47 || c == 40 || c == 41 {
            let t = if c == 43 {
                Token::Plus
            } else if c == 45 {
                Token::Minus
            } else if c == 42 {
                Token::Star
            } else if c == 47 {
                Token::Slash
            } else if c == 40 {
                Token::LParen
            } else {
                Token::RParen
            };
            acc.push(t);
            proof {
                assert(acc@ =~= acc_pre.push(t));
                match tokenize_from(s, i + 1 as int) {
                    Some(rest) => {
                        assert(acc_pre + (seq![t] + rest) =~= acc@ + rest);
                    },
                    None => {},
                }
            }
            i = i + 1;
        } else {
            proof {
                assert(!is_space(s[i as int]) && !is_digit(s[i as int]) && !is_upper(s[i as int]));
                assert(tokenize_from(s, i as int) is None);
                assert(tokenize_err(s, i as int) == s.subrange(i as int, i + 1 as int));
            }
            let d = src.substring_char(i, i + 1).to_owned();
            return Err(SpreadsheetError::InvalidFormula(d));
        }
    }
    proof {
        assert(tokenize_from(s, i as int) == Some(Seq::<Token>::empty()));
        assert(acc@ + Seq::<Token>::empty() =~= acc@);
    }
    Ok(acc)
}

/// Mirrors `parse_primary`.
pub fn parse_primary_exec(ts: &Vec<Token>, i: usize) -> (r: Result<
    (Expr, usize),
    SpreadsheetError,
>)
    requires
        i <= ts@.len(),
    ensures
        match r {
            Ok(p) => parse_primary(ts@, i as int) == Some((p.0, p.1 as int)) && i < p.1
                <= ts@.len(),
            Err(er) => er is InvalidFormula && parse_primary(ts@, i as int) is None,
        },
    decreases ts@.len() - i, 0nat,
{
    if i >= ts.len() {
        return Err(SpreadsheetError::InvalidFormula("missing operand".to_owned()));
    }
    match ts[i] {
        Token::Num(n) => Ok((Expr::Num(n), i + 1)),
        Token::CellRef(c) => Ok((Expr::Ref(c), i + 1)),
        Token::LParen => match parse_expr_exec(ts, i + 1) {
            Err(er) => Err(er),
            Ok((e, j)) => if j < ts.len() {
                match ts[j] {
                    Token::RParen => Ok((e, j + 1)),
                    _ => Err(SpreadsheetError::InvalidFormula("unbalanced parentheses".to_owned())),
                }
            } else {
                Err(SpreadsheetError::InvalidFormula("unbalanced parentheses".to_owned()))
            },
        },
        _ => Err(SpreadsheetError::InvalidFormula("missing operand".to_owned())),
    }
}

/// Mirrors `parse_term`.
pub fn parse_term_exec(ts: &Vec<Token>, i: usize) -> (r: Result<(Expr, usize), SpreadsheetError>)
    requires
        i <= ts@.len(),
    ensures
        match r {
            Ok(p) => parse_term(ts@, i as int) == Some((p.0, p.1 as int)) && i < p.1 <= ts@.len(),
            Err(er) => er is InvalidFormula && parse_term(ts@, i as int) is None,
        },
    decreases ts@.len() - i, 2nat,
{
    match parse_primary_exec(ts, i) {
        Err(er) => Err(er),
        Ok((e, j)) => parse_term_rest_exec(ts, e, j),
    }
}

/// Mirrors `parse_term_rest`.
pub fn parse_term_rest_exec(ts: &Vec<Token>, left: Expr, i: usize) -> (r: Result<
    (Expr, usize),
    SpreadsheetError,
>)
    requires
        i <= ts@.len(),
    ensures
        match r {
            Ok(p) => parse_term_rest(ts@, left, i as int) == Some((p.0, p.1 as int)) && i <= p.1
                <= ts@.len(),
            Err(er) => er is InvalidFormula && parse_term_rest(ts@, left, i as int) is None,
        },
    decreases ts@.len() - i, 1nat,
{
    if i < ts.len() {
        let is_mul = match ts[i] {
            Token::Star => true,
            _ => false,
        };
        let is_div = match ts[i] {
            Token::Slash => true,
            _ => false,
        };
        if is_mul || is_div {
            let op = if is_mul {
                BinOp::Mul
            } else {
                BinOp::Div
            };
            return match parse_primary_exec(ts, i + 1) {
                Err(er) => Err(er),
                Ok((rhs, j)) => parse_term_rest_exec(
                    ts,
                    Expr::Bin(op, Box::new(left), Box::new(rhs)),
                    j,
                ),
            };
        }
    }
    Ok((left, i))
}

/// Mirrors `parse_expr`.
pub fn parse_expr_exec(ts: &Vec<Token>, i: usize) -> (r: Result<(Expr, usize), SpreadsheetError>)
    requires
        i <= ts@.len(),
    ensures
        match r {
            Ok(p) => parse_expr(ts@, i as int) == Some((p.0, p.1 as int)) && i < p.1 <= ts@.len(),
            Err(er) => er is InvalidFormula && parse_expr(ts@, i as int) is None,
        },
    decreases ts@.len() - i, 4nat,
{
    match parse_term_exec(ts, i) {
        Err(er) => Err(er),
        Ok((e, j)) => parse_expr_rest_exec(ts, e, j),
    }
}

/// Mirrors `parse_expr_rest`.
pub fn parse_expr_rest_exec(ts: &Vec<Token>, left: Expr, i: usize) -> (r: Result<
    (Expr, usize),
    SpreadsheetError,
>)
    requires
        i <= ts@.len(),
    ensures
        match r {
            Ok(p) => parse_expr_rest(ts@, left, i as int) == Some((p.0, p.1 as int)) && i <= p.1
                <= ts@.len(),
            Err(er) => er is InvalidFormula && parse_expr_rest(ts@, left, i as int) is None,
        },
    decreases ts@.len() - i, 3nat,
{
    if i < ts.len() {
        let is_add = match ts[i] {
            Token::Plus => true,
            _ => false,
        };
        let is_sub = match ts[i] {
            Token::Minus => true,
            _ => false,
        };
        if is_add || is_sub {
            let op = if is_add {
                BinOp::Add
            } else {
                BinOp::Sub
            };
            return match parse_term_exec(ts, i + 1) {
                Err(er) => Err(er),
                Ok((rhs, j)) => parse_expr_rest_exec(
                    ts,
                    Expr::Bin(op, Box::new(left), Box::new(rhs)),
                    j,
                ),
            };
        }
    }
    Ok((left, i))
}

/// Collects the distinct coordinates an expression references into `acc`.
pub fn collect_refs(e: &Expr, acc: &mut Vec<Coord>)
    requires
        old(acc)@.no_duplicates(),
    ensures
        final(acc)@.no_duplicates(),
        forall|x: Coord|
            #![trigger final(acc)@.contains(x)]
            #![trigger old(acc)@.contains(x)]
            #![trigger e.refs().contains(x)]
            final(acc)@.contains(x) <==> old(acc)@.contains(x) || e.refs().contains(x),
    decreases *e,
{
    let ghost a0 = acc@;
    match e {
        Expr::Num(_) => {
            proof {
                assert(e.refs() =~= Set::<Coord>::empty());
                assert forall|x: Coord| acc@.contains(x) <==> a0.contains(x) || e.refs().contains(
                    x,
                ) by {
                    assert(!e.refs().contains(x));
                }
            }
        },
        Expr::Ref(c) => {
            proof {
                assert(e.refs() =~= Set::<Coord>::empty().insert(*c));
            }
            if !crate::cell::coords_contain(acc, *c) {
                let ghost pre = acc@;
                acc.push(*c);
                proof {
                    crate::cell::lemma_push_contains(pre, *c);
                    crate::cell::lemma_push_no_dup(pre, *c);
                }
            }
            proof {
                assert forall|x: Coord| acc@.contains(x) <==> a0.contains(x) || e.refs().contains(
                    x,
                ) by {
                    assert(e.refs().contains(x) <==> x == *c);
                }
            }
        },
        Expr::Bin(_, l, r) => {
            collect_refs(&**l, acc);
            let ghost a1 = acc@;
            collect_refs(&**r, acc);
            proof {
                assert(forall|x: Coord| a1.contains(x) <==> a0.contains(x) || l.refs().contains(x));
                assert(forall|x: Coord| acc@.contains(x) <==> a1.contains(x) || r.refs().contains(x));
                assert(e.refs() =~= l.refs().union(r.refs()));
                assert forall|x: Coord| acc@.contains(x) <==> a0.contains(x) || e.refs().contains(
                    x,
                ) by {
                    assert(e.refs().contains(x) <==> l.refs().contains(x) || r.refs().contains(x));
                }
            }
        },
    }
}

/// Parses a formula's source text into its expression tree and the list of
/// distinct coordinates it references, exactly when the grammar accepts the
/// text; every rejection is an `InvalidFormula` error.
pub fn parse(src: &str) -> (r: Result<(Expr, Vec<Coord>), SpreadsheetError>)
    ensures
        match r {
            Ok(p) => parse_formula_spec(src@) == Some(p.0) && p.1@.no_duplicates() && (forall|
                x: Coord,
            | p.1@.contains(x) <==> p.0.refs().contains(x)),
            Err(er) => (er matches SpreadsheetError::InvalidFormula(d) && d@ == formula_err_detail(
                src@,
            )) && parse_formula_spec(src@) is None,
        },
{
    match tokenize(src) {
        Err(er) => Err(er),
        Ok(ts) => match parse_expr_exec(&ts, 0) {
            Err(_) => Err(SpreadsheetError::InvalidFormula(src.to_owned())),
            Ok((e, j)) => {
                if j == ts.len() {
                    let mut refs: Vec<Coord> = Vec::new();
                    collect_refs(&e, &mut refs);
                    Ok((e, refs))
                } else {
                    Err(SpreadsheetError::InvalidFormula(src.to_owned()))
                }
            },
        },
    }
}

} // verus!
