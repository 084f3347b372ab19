//! Recursive-descent parser for OWL Manchester class expressions.
//!
//! Grammar (precedence: `or` < `and`/`that` < `not` < restrictions and primaries):
//!
//! ```text
//! expr_list := expr (',' expr)*
//! expr      := or_expr
//! or_expr   := and_expr ('or' and_expr)*
//! and_expr  := not_expr (('and' | 'that') not_expr)*
//! not_expr  := 'not' primary | primary
//! primary   := name rest | '{' name+ '}' | '(' expr ')'
//! name      := Ident | Iri
//! rest      := 'some' primary | 'only' primary
//!            | ('min'|'max'|'exactly') Number primary?
//!            | 'value' name | 'Self' | ε
//! ```
//!
//! `that` is conjunction sugar; `Self` is refused with a named reason; a section body is a
//! comma-separated list of expressions (each a separate axiom).
use vstd::prelude::*;
use crate::manchester::{Expr, ExprV, ManchesterError, ev, ev_all};
use crate::manchester::lexer::{Token, TokenV, describe, tokenize, lex_from, byte_len};
use crate::text::{cat, chars_of, is_whitespace, trim, decimal, fmt_u64};

verus! {

/// A parse result: the expression and the cursor after it, or the cursor and message of
/// the error.
pub type PRes = Result<(ExprV, int), (int, Seq<char>)>;

/// The token at `c`; the end of input past the stream.
pub open spec fn pk(ts: Seq<TokenV>, c: int) -> TokenV {
    if 0 <= c < ts.len() { ts[c] } else { TokenV::Eof }
}

/// A name token: an identifier or a full IRI.
pub open spec fn is_name(t: TokenV) -> bool {
    t is Ident || t is Iri
}

/// The text of a name token.
pub open spec fn name_of(t: TokenV) -> Seq<char> {
    match t {
        TokenV::Ident(s) => s,
        TokenV::Iri(s) => s,
        _ => Seq::empty(),
    }
}

/// A token that can start a primary.
pub open spec fn starts_primary(t: TokenV) -> bool {
    t is Ident || t is Iri || t is LBrace || t is LParen
}

/// `expr` at `c`.
pub open spec fn p_expr(ts: Seq<TokenV>, c: int) -> PRes
    decreases ts.len() - c, 6int,
{
    p_or(ts, c)
}

/// `or_expr` at `c`.
pub open spec fn p_or(ts: Seq<TokenV>, c: int) -> PRes
    decreases ts.len() - c, 5int,
{
    match p_and(ts, c) {
        Err(e) => Err(e),
        Ok((first, c1)) => if !(pk(ts, c1) is Or) {
            Ok((first, c1))
        } else if c1 <= c || c1 > ts.len() {
            Err((c1, Seq::empty()))
        } else {
            or_tail(ts, c1, seq![first])
        },
    }
}

/// More `or` arms from `c`, after `arms`.
pub open spec fn or_tail(ts: Seq<TokenV>, c: int, arms: Seq<ExprV>) -> PRes
    decreases ts.len() - c, 5int,
{
    if !(pk(ts, c) is Or) || c < 0 || c >= ts.len() {
        Ok((ExprV::Or(arms), c))
    } else {
        match p_and(ts, c + 1) {
            Err(e) => Err(e),
            Ok((x, c2)) => if c2 <= c || c2 > ts.len() {
                Err((c2, Seq::empty()))
            } else {
                or_tail(ts, c2, arms.push(x))
            },
        }
    }
}

/// A conjunction keyword: `and` or `that`.
pub open spec fn is_conj(t: TokenV) -> bool {
    t is And || t is That
}

/// `and_expr` at `c`.
pub open spec fn p_and(ts: Seq<TokenV>, c: int) -> PRes
    decreases ts.len() - c, 4int,
{
    match p_not(ts, c) {
        Err(e) => Err(e),
        Ok((first, c1)) => if !is_conj(pk(ts, c1)) {
            Ok((first, c1))
        } else if c1 <= c || c1 > ts.len() {
            Err((c1, Seq::empty()))
        } else {
            and_tail(ts, c1, seq![first])
        },
    }
}

/// More conjuncts from `c`, after `arms`.
pub open spec fn and_tail(ts: Seq<TokenV>, c: int, arms: Seq<ExprV>) -> PRes
    decreases ts.len() - c, 4int,
{
    if !is_conj(pk(ts, c)) || c < 0 || c >= ts.len() {
        Ok((ExprV::And(arms), c))
    } else {
        match p_not(ts, c + 1) {
            Err(e) => Err(e),
            Ok((x, c2)) => if c2 <= c || c2 > ts.len() {
                Err((c2, Seq::empty()))
            } else {
                and_tail(ts, c2, arms.push(x))
            },
        }
    }
}

/// `not_expr` at `c`.
pub open spec fn p_not(ts: Seq<TokenV>, c: int) -> PRes
    decreases ts.len() - c, 3int,
{
    if pk(ts, c) is Not && 0 <= c < ts.len() {
        match p_primary(ts, c + 1) {
            Err(e) => Err(e),
            Ok((x, c1)) => Ok((ExprV::Not(Box::new(x)), c1)),
        }
    } else {
        p_primary(ts, c)
    }
}

/// `primary` at `c`.
pub open spec fn p_primary(ts: Seq<TokenV>, c: int) -> PRes
    decreases ts.len() - c, 2int,
{
    let t = pk(ts, c);
    if c < 0 || c >= ts.len() {
        Err((c, "unexpected end of input — expected a class expression"@))
    } else if is_name(t) {
        p_rest(ts, c + 1, name_of(t))
    } else if t is LBrace {
        p_brace(ts, c + 1, Seq::empty())
    } else if t is LParen {
        match p_expr(ts, c + 1) {
            Err(e) => Err(e),
            Ok((inner, c1)) => if pk(ts, c1) is RParen {
                Ok((inner, c1 + 1))
            } else {
                Err((c1, "expected `)`, got "@ + describe(pk(ts, c1))))
            },
        }
    } else if t is Eof {
        Err((c, "unexpected end of input — expected a class expression"@))
    } else {
        Err((c, "expected a name, `{`, or `(`, got "@ + describe(t)))
    }
}

/// The individuals of `{…}` from `c`, after `inds`.
pub open spec fn p_brace(ts: Seq<TokenV>, c: int, inds: Seq<Seq<char>>) -> PRes
    decreases ts.len() - c, 1int,
{
    let t = pk(ts, c);
    if c < 0 || c >= ts.len() || t is Eof {
        Err((c, "unexpected end of input inside `{…}`"@))
    } else if t is RBrace {
        if inds.len() == 0 {
            Err((c + 1, "`{…}` must contain at least one individual"@))
        } else {
            Ok((ExprV::OneOf(inds), c + 1))
        }
    } else if is_name(t) {
        p_brace(ts, c + 1, inds.push(name_of(t)))
    } else if t is Comma {
        p_brace(ts, c + 1, inds)
    } else {
        Err((c, "expected individual or `}` inside `{…}`, got "@ + describe(t)))
    }
}

/// An optional filler after a number bound, at `c`.
pub open spec fn p_filler(ts: Seq<TokenV>, c: int) -> Result<(Option<Box<ExprV>>, int), (int, Seq<char>)>
    decreases ts.len() - c, 3int,
{
    if starts_primary(pk(ts, c)) && 0 <= c < ts.len() {
        match p_primary(ts, c) {
            Err(e) => Err(e),
            Ok((f, c1)) => Ok((Some(Box::new(f)), c1)),
        }
    } else {
        Ok((None, c))
    }
}

/// `rest` at `c`, after the name `name`.
pub open spec fn p_rest(ts: Seq<TokenV>, c: int, name: Seq<char>) -> PRes
    decreases ts.len() - c, 1int,
{
    let t = pk(ts, c);
    if c < 0 || c >= ts.len() {
        Ok((ExprV::Named(name), c))
    } else if t is SomeKw {
        match p_primary(ts, c + 1) {
            Err(e) => Err(e),
            Ok((f, c1)) => Ok((ExprV::Exists(name, Box::new(f)), c1)),
        }
    } else if t is Only {
        match p_primary(ts, c + 1) {
            Err(e) => Err(e),
            Ok((f, c1)) => Ok((ExprV::Only(name, Box::new(f)), c1)),
        }
    } else if t is Min || t is Max || t is Exactly {
        match pk(ts, c + 1) {
            TokenV::Number(n) => if c + 1 >= ts.len() {
                Err((c + 1, Seq::empty()))
            } else {
                match p_filler(ts, c + 2) {
                    Err(e) => Err(e),
                    Ok((f, c2)) => Ok((
                        if t is Min {
                            ExprV::Min(name, n, f)
                        } else if t is Max {
                            ExprV::Max(name, n, f)
                        } else {
                            ExprV::Exactly(name, n, f)
                        },
                        c2,
                    )),
                }
            },
            other => Err((c + 1, "expected a number, got "@ + describe(other))),
        }
    } else if t is Value {
        if is_name(pk(ts, c + 1)) {
            Ok((ExprV::HasValue(name, name_of(pk(ts, c + 1))), c + 2))
        } else {
            Err((c + 1, "expected an individual name after `value`"@))
        }
    } else if t is SelfKw {
        Err((c, "`Self` restrictions are out of the v0 fragment (refused, not approximated)"@))
    } else {
        Ok((ExprV::Named(name), c))
    }
}

/// More comma-separated expressions from `c`, after `items`.
pub open spec fn p_list_tail(ts: Seq<TokenV>, c: int, items: Seq<ExprV>) -> Result<Seq<ExprV>, (int, Seq<char>)>
    decreases ts.len() - c,
{
    let t = pk(ts, c);
    if t is Comma && 0 <= c < ts.len() {
        match p_expr(ts, c + 1) {
            Err(e) => Err(e),
            Ok((x, c1)) => if c1 <= c || c1 > ts.len() {
                Err((c1, Seq::empty()))
            } else {
                p_list_tail(ts, c1, items.push(x))
            },
        }
    } else if t is Eof {
        Ok(items)
    } else {
        Err((c, "unexpected token "@ + describe(t) + " after expression — expected `,` or end of input"@))
    }
}

/// The expressions of a token stream.
pub open spec fn p_list(ts: Seq<TokenV>) -> Result<Seq<ExprV>, (int, Seq<char>)> {
    match p_expr(ts, 0) {
        Err(e) => Err(e),
        Ok((x, c)) => if c <= 0 || c > ts.len() { Err((c, Seq::empty())) } else { p_list_tail(ts, c, seq![x]) },
    }
}

/// A Manchester error, viewed.
pub enum MErrV {
    Lex(nat, Seq<char>),
    Parse(nat, Seq<char>),
}

/// The view of a Manchester error.
pub open spec fn merr(e: ManchesterError) -> MErrV {
    match e {
        ManchesterError::Lex { pos, msg } => MErrV::Lex(pos as nat, msg@),
        ManchesterError::Parse { pos, msg } => MErrV::Parse(pos as nat, msg@),
    }
}

/// The token kinds of a token stream.
pub open spec fn kinds(v: Seq<(Token, usize)>) -> Seq<TokenV> {
    v.map_values(|t: (Token, usize)| t.0@)
}

/// The expressions of a section body: lexing, then the list grammar.
pub open spec fn list_spec(s: Seq<char>) -> Result<Seq<ExprV>, MErrV> {
    if trim(s).len() == 0 {
        Err(MErrV::Parse(0, "input is empty — expected a class expression"@))
    } else {
        match lex_from(s, 0) {
            Err((p, m)) => Err(MErrV::Lex(p, m)),
            Ok(toks) => {
                let ts = toks.map_values(|t: (TokenV, nat)| t.0);
                match p_list(ts) {
                    Ok(items) => Ok(items),
                    Err((p, m)) => Err(MErrV::Parse(p as nat, m)),
                }
            },
        }
    }
}

/// The expression of a single-expression body.
pub open spec fn one_spec(s: Seq<char>) -> Result<ExprV, MErrV> {
    match list_spec(s) {
        Err(e) => Err(e),
        Ok(items) => if items.len() != 1 {
            Err(MErrV::Parse(0, "expected one expression, found a list of "@ + decimal(items.len())))
        } else {
            Ok(items[0])
        },
    }
}

/// The views of a list of expressions.
pub open spec fn evs(v: Seq<Expr>) -> Seq<ExprV> {
    Seq::new(v.len(), |i: int| ev(v[i]))
}

/// The parse error at token `pos`.
fn perr(pos: usize, msg: String) -> (e: ManchesterError)
    ensures
        e == (ManchesterError::Parse { pos, msg }),
{
    ManchesterError::Parse { pos, msg }
}

/// An exec parse result agrees with the spec result `s`, the cursor moving from `c` by at
/// least `min` on success.
pub open spec fn agrees(r: Result<(Expr, usize), ManchesterError>, s: PRes, c: int, min: int, n: int) -> bool {
    match s {
        Ok((x, c1)) => r matches Ok((e, k)) && ev(e) == x && k == c1 && c + min <= k <= n,
        Err((p, m)) => r matches Err(ManchesterError::Parse { pos, msg }) && pos == p && msg@ == m,
    }
}

/// The token at `c`.
fn peek(ts: &Vec<(Token, usize)>, c: usize) -> (t: Token)
    ensures
        t@ == pk(kinds(ts@), c as int),
{
    if c < ts.len() {
        ts[c].0.copy()
    } else {
        Token::Eof
    }
}

fn expr(ts: &Vec<(Token, usize)>, c: usize) -> (r: Result<(Expr, usize), ManchesterError>)
    requires
        c <= ts@.len(),
    ensures
        agrees(r, p_expr(kinds(ts@), c as int), c as int, 1, ts@.len() as int),
    decreases ts@.len() - c, 6int,
{
    or_expr(ts, c)
}

fn or_expr(ts: &Vec<(Token, usize)>, c: usize) -> (r: Result<(Expr, usize), ManchesterError>)
    requires
        c <= ts@.len(),
    ensures
        agrees(r, p_or(kinds(ts@), c as int), c as int, 1, ts@.len() as int),
    decreases ts@.len() - c, 5int,
{
    let (first, c1) = match and_expr(ts, c) {
        Ok(x) => x,
        Err(e) => return Err(e),
    };
    if !matches!(peek(ts, c1), Token::Or) {
        return Ok((first, c1));
    }
    let mut arms: Vec<Expr> = Vec::new();
    arms.push(first);
    assert(ev_all(arms) =~= seq![ev(arms@[0])]);
    or_rest(ts, c1, arms)
}

fn or_rest(ts: &Vec<(Token, usize)>, c: usize, arms: Vec<Expr>) -> (r: Result<(Expr, usize), ManchesterError>)
    requires
        c <= ts@.len(),
    ensures
        agrees(r, or_tail(kinds(ts@), c as int, ev_all(arms)), c as int, 0, ts@.len() as int),
    decreases ts@.len() - c, 5int,
{
    let mut arms = arms;
    if !matches!(peek(ts, c), Token::Or) || c >= ts.len() {
        return Ok((Expr::Or(arms), c));
    }
    let (x, c2) = match and_expr(ts, c + 1) {
        Ok(x) => x,
        Err(e) => return Err(e),
    };
    let ghost before = ev_all(arms);
    let ghost xv = ev(x);
    arms.push(x);
    assert(ev_all(arms) =~= before.push(xv));
    or_rest(ts, c2, arms)
}

fn and_expr(ts: &Vec<(Token, usize)>, c: usize) -> (r: Result<(Expr, usize), ManchesterError>)
    requires
        c <= ts@.len(),
    ensures
        agrees(r, p_and(kinds(ts@), c as int), c as int, 1, ts@.len() as int),
    decreases ts@.len() - c, 4int,
{
    let (first, c1) = match not_expr(ts, c) {
        Ok(x) => x,
        Err(e) => return Err(e),
    };
    let t = peek(ts, c1);
    if !(matches!(t, Token::And) || matches!(t, Token::That)) {
        return Ok((first, c1));
    }
    let mut arms: Vec<Expr> = Vec::new();
    arms.push(first);
    assert(ev_all(arms) =~= seq![ev(arms@[0])]);
    and_rest(ts, c1, arms)
}

fn and_rest(ts: &Vec<(Token, usize)>, c: usize, arms: Vec<Expr>) -> (r: Result<(Expr, usize), ManchesterError>)
    requires
        c <= ts@.len(),
    ensures
        agrees(r, and_tail(kinds(ts@), c as int, ev_all(arms)), c as int, 0, ts@.len() as int),
    decreases ts@.len() - c, 4int,
{
    let mut arms = arms;
    let t = peek(ts, c);
    if !(matches!(t, Token::And) || matches!(t, Token::That)) || c >= ts.len() {
        return Ok((Expr::And(arms), c));
    }
    let (x, c2) = match not_expr(ts, c + 1) {
        Ok(x) => x,
        Err(e) => return Err(e),
    };
    let ghost before = ev_all(arms);
    let ghost xv = ev(x);
    arms.push(x);
    assert(ev_all(arms) =~= before.push(xv));
    and_rest(ts, c2, arms)
}

fn not_expr(ts: &Vec<(Token, usize)>, c: usize) -> (r: Result<(Expr, usize), ManchesterError>)
    requires
        c <= ts@.len(),
    ensures
        agrees(r, p_not(kinds(ts@), c as int), c as int, 1, ts@.len() as int),
    decreases ts@.len() - c, 3int,
{
    if matches!(peek(ts, c), Token::Not) && c < ts.len() {
        match primary(ts, c + 1) {
            Ok((x, c1)) => Ok((Expr::Not(Box::new(x)), c1)),
            Err(e) => Err(e),
        }
    } else {
        primary(ts, c)
    }
}

fn primary(ts: &Vec<(Token, usize)>, c: usize) -> (r: Result<(Expr, usize), ManchesterError>)
    requires
        c <= ts@.len(),
    ensures
        agrees(r, p_primary(kinds(ts@), c as int), c as int, 1, ts@.len() as int),
    decreases ts@.len() - c, 2int,
{
    if c >= ts.len() {
        return Err(perr(c, String::from_str("unexpected end of input — expected a class expression")));
    }
    let t = peek(ts, c);
    match t {
        Token::Ident(s) => {
            assert(p_primary(kinds(ts@), c as int) == p_rest(kinds(ts@), c + 1, s@));
            rest(ts, c + 1, s)
        },
        Token::Iri(s) => {
            assert(p_primary(kinds(ts@), c as int) == p_rest(kinds(ts@), c + 1, s@));
            rest(ts, c + 1, s)
        },
        Token::LBrace => {
            let v: Vec<String> = Vec::new();
            assert(crate::fragment::names_view(v@) =~= Seq::<Seq<char>>::empty());
            brace(ts, c + 1, v)
        },
        Token::LParen => {
            let (inner, c1) = match expr(ts, c + 1) {
                Ok(x) => x,
                Err(e) => return Err(e),
            };
            let t1 = peek(ts, c1);
            match t1 {
                Token::RParen => Ok((inner, c1 + 1)),
                _ => Err(perr(c1, cat(String::from_str("expected `)`, got "), t1.describe().as_str()))),
            }
        },
        Token::Eof => Err(perr(c, String::from_str("unexpected end of input — expected a class expression"))),
        _ => Err(perr(c, cat(String::from_str("expected a name, `{`, or `(`, got "), t.describe().as_str()))),
    }
}

fn brace(ts: &Vec<(Token, usize)>, c: usize, inds: Vec<String>) -> (r: Result<(Expr, usize), ManchesterError>)
    requires
        c <= ts@.len(),
    ensures
        agrees(r, p_brace(kinds(ts@), c as int, crate::fragment::names_view(inds@)), c as int, 1, ts@.len() as int),
    decreases ts@.len() - c, 1int,
{
    let mut inds = inds;
    let t = peek(ts, c);
    if c >= ts.len() || matches!(t, Token::Eof) {
        return Err(perr(c, String::from_str("unexpected end of input inside `{…}`")));
    }
    match t {
        Token::RBrace => {
            if inds.len() == 0 {
                Err(perr(c + 1, String::from_str("`{…}` must contain at least one individual")))
            } else {
                Ok((Expr::OneOf(inds), c + 1))
            }
        },
        Token::Ident(s) => {
            let ghost before = crate::fragment::names_view(inds@);
            let ghost sv = s@;
            inds.push(s);
            assert(crate::fragment::names_view(inds@) =~= before.push(sv));
            brace(ts, c + 1, inds)
        },
        Token::Iri(s) => {
            let ghost before = crate::fragment::names_view(inds@);
            let ghost sv = s@;
            inds.push(s);
            assert(crate::fragment::names_view(inds@) =~= before.push(sv));
            brace(ts, c + 1, inds)
        },
        Token::Comma => brace(ts, c + 1, inds),
        _ => Err(perr(c, cat(String::from_str("expected individual or `}` inside `{…}`, got "), t.describe().as_str()))),
    }
}

fn filler(ts: &Vec<(Token, usize)>, c: usize) -> (r: Result<(Option<Box<Expr>>, usize), ManchesterError>)
    requires
        c <= ts@.len(),
    ensures
        match p_filler(kinds(ts@), c as int) {
            Ok((f, c1)) => r matches Ok((g, k)) && k == c1 && c <= k <= ts@.len() && match g {
                Some(b) => f == Some(Box::new(ev(*b))),
                None => f is None,
            },
            Err((p, m)) => r matches Err(ManchesterError::Parse { pos, msg }) && pos == p && msg@ == m,
        },
    decreases ts@.len() - c, 3int,
{
    let t = peek(ts, c);
    let starts = matches!(t, Token::Ident(_)) || matches!(t, Token::Iri(_)) || matches!(t, Token::LBrace) || matches!(t, Token::LParen);
    if starts && c < ts.len() {
        match primary(ts, c) {
            Ok((f, c1)) => Ok((Some(Box::new(f)), c1)),
            Err(e) => Err(e),
        }
    } else {
        Ok((None, c))
    }
}

fn rest(ts: &Vec<(Token, usize)>, c: usize, name: String) -> (r: Result<(Expr, usize), ManchesterError>)
    requires
        c <= ts@.len(),
    ensures
        agrees(r, p_rest(kinds(ts@), c as int, name@), c as int, 0, ts@.len() as int),
    decreases ts@.len() - c, 1int,
{
    if c >= ts.len() {
        return Ok((Expr::Named(name), c));
    }
    let t = peek(ts, c);
    match t {
        Token::SomeKw => match primary(ts, c + 1) {
            Ok((f, c1)) => Ok((Expr::Exists { property: name, filler: Box::new(f) }, c1)),
            Err(e) => Err(e),
        },
        Token::Only => match primary(ts, c + 1) {
            Ok((f, c1)) => Ok((Expr::Only { property: name, filler: Box::new(f) }, c1)),
            Err(e) => Err(e),
        },
        Token::Min | Token::Max | Token::Exactly => {
            let t1 = peek(ts, c + 1);
            match t1 {
                Token::Number(n) => {
                    let (f, c2) = match filler(ts, c + 2) {
                        Ok(x) => x,
                        Err(e) => return Err(e),
                    };
                    let e = match t {
                        Token::Min => Expr::Min { property: name, n, filler: f },
                        Token::Max => Expr::Max { property: name, n, filler: f },
                        _ => Expr::Exactly { property: name, n, filler: f },
                    };
                    Ok((e, c2))
                },
                _ => Err(perr(c + 1, cat(String::from_str("expected a number, got "), t1.describe().as_str()))),
            }
        },
        Token::Value => {
            let t1 = peek(ts, c + 1);
            match t1 {
                Token::Ident(s) => Ok((Expr::HasValue { property: name, individual: s }, c + 2)),
                Token::Iri(s) => Ok((Expr::HasValue { property: name, individual: s }, c + 2)),
                _ => Err(perr(c + 1, String::from_str("expected an individual name after `value`"))),
            }
        },
        Token::SelfKw => Err(perr(c, String::from_str("`Self` restrictions are out of the v0 fragment (refused, not approximated)"))),
        _ => Ok((Expr::Named(name), c)),
    }
}

/// Parse a section body: comma-separated expressions, each a separate axiom.
pub fn parse_list(input: &str) -> (r: Result<Vec<Expr>, ManchesterError>)
    ensures
        match list_spec(input@) {
            Ok(items) => r matches Ok(v) && evs(v@) == items,
            Err(e) => r matches Err(x) && merr(x) == e,
        },
{
    let chars = chars_of(input);
    let (a, b) = crate::text::trim_range(&chars, 0, chars.len());
    proof { assert(chars@.subrange(0, chars@.len() as int) =~= input@); }
    if a == b {
        return Err(perr(0, String::from_str("input is empty — expected a class expression")));
    }
    let ts = match tokenize(input) {
        Ok(ts) => ts,
        Err(e) => return Err(e),
    };
    let ghost toks = match lex_from(input@, 0) { Ok(t) => t, Err(_) => Seq::empty() };
    proof {
        assert(kinds(ts@) =~= toks.map_values(|t: (TokenV, nat)| t.0));
    }
    let (first, c0) = match expr(&ts, 0) {
        Ok(x) => x,
        Err(e) => return Err(e),
    };
    let mut items: Vec<Expr> = Vec::new();
    items.push(first);
    let mut c = c0;
    proof { assert(evs(items@) =~= seq![ev(items@[0])]); }
    let ghost lifted = match p_list(kinds(ts@)) {
        Ok(items) => Ok::<Seq<ExprV>, MErrV>(items),
        Err((p, m)) => Err(MErrV::Parse(p as nat, m)),
    };
    assert(list_spec(input@) == lifted);
    while c <= ts.len()
        invariant
            c <= ts@.len(),
            list_spec(input@) == lifted,
            lifted == match p_list(kinds(ts@)) {
                Ok(items) => Ok::<Seq<ExprV>, MErrV>(items),
                Err((p, m)) => Err(MErrV::Parse(p as nat, m)),
            },
            p_list(kinds(ts@)) == p_list_tail(kinds(ts@), c as int, evs(items@)),
        decreases ts@.len() - c,
    {
        let t = peek(&ts, c);
        if matches!(t, Token::Comma) && c < ts.len() {
            let (x, c1) = match expr(&ts, c + 1) {
                Ok(x) => x,
                Err(e) => return Err(e),
            };
            let ghost before = evs(items@);
            let ghost xv = ev(x);
            items.push(x);
            assert(evs(items@) =~= before.push(xv));
            c = c1;
        } else if matches!(t, Token::Eof) {
            return Ok(items);
        } else {
            let m = cat(cat(String::from_str("unexpected token "), t.describe().as_str()), " after expression — expected `,` or end of input");
            return Err(perr(c, m));
        }
    }
    Ok(items)
}

/// Parse one class expression; the whole input must be consumed.
pub fn parse(input: &str) -> (r: Result<Expr, ManchesterError>)
    ensures
        match one_spec(input@) {
            Ok(x) => r matches Ok(e) && ev(e) == x,
            Err(e) => r matches Err(y) && merr(y) == e,
        },
{
    let mut items = match parse_list(input) {
        Ok(items) => items,
        Err(e) => return Err(e),
    };
    if items.len() != 1 {
        let m = cat(String::from_str("expected one expression, found a list of "), fmt_u64(items.len() as u64).as_str());
        return Err(perr(0, m));
    }
    let e = items.remove(0);
    Ok(e)
}

} // verus!
