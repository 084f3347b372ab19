//! Tokenizer for OWL Manchester Syntax.
//!
//! Beyond names and keywords: full IRIs in angle brackets (`<https://…#Local>`), string
//! literals (`"…"` with `\"`/`\\` escapes; a trailing `@lang` or `^^datatype` suffix is
//! consumed and dropped), commas (section lists are separate axioms), and identifier bodies
//! that admit `-` and `.`. Keywords are case-sensitive per the W3C grammar. Data-range
//! facets (`[…]`) are refused loudly. Positions are byte offsets into the input.
use vstd::prelude::*;
use vstd::utf8::{encode_utf8, encode_scalar};
use crate::text::{chars_of, string_of, eq_str, parse_u32, parse_u32_spec, push_char};
use crate::manchester::ManchesterError;

verus! {

/// A single lexical token with grammar-relevant identity.
#[derive(Debug, Clone, PartialEq, Eq)]
pub enum Token {
    /// Prefixed or bare name (`bfo:0000015`, `owl:Thing`, `Person`).
    Ident(String),
    /// Full IRI, angle brackets stripped.
    Iri(String),
    /// String literal, quotes stripped, escapes resolved; lang/datatype suffix dropped.
    Str(String),
    And,
    Or,
    Not,
    /// The `some` keyword.
    SomeKw,
    Only,
    Min,
    Max,
    Exactly,
    Value,
    That,
    SelfKw,
    Comma,
    LBrace,
    RBrace,
    LParen,
    RParen,
    Number(u32),
    Eof,
}

/// A token, viewed.
pub enum TokenV {
    Ident(Seq<char>),
    Iri(Seq<char>),
    Str(Seq<char>),
    And,
    Or,
    Not,
    SomeKw,
    Only,
    Min,
    Max,
    Exactly,
    Value,
    That,
    SelfKw,
    Comma,
    LBrace,
    RBrace,
    LParen,
    RParen,
    Number(u32),
    Eof,
}

impl View for Token {
    type V = TokenV;

    open spec fn view(&self) -> TokenV {
        match self {
            Token::Ident(s) => TokenV::Ident(s@),
            Token::Iri(s) => TokenV::Iri(s@),
            Token::Str(s) => TokenV::Str(s@),
            Token::And => TokenV::And,
            Token::Or => TokenV::Or,
            Token::Not => TokenV::Not,
            Token::SomeKw => TokenV::SomeKw,
            Token::Only => TokenV::Only,
            Token::Min => TokenV::Min,
            Token::Max => TokenV::Max,
            Token::Exactly => TokenV::Exactly,
            Token::Value => TokenV::Value,
            Token::That => TokenV::That,
            Token::SelfKw => TokenV::SelfKw,
            Token::Comma => TokenV::Comma,
            Token::LBrace => TokenV::LBrace,
            Token::RBrace => TokenV::RBrace,
            Token::LParen => TokenV::LParen,
            Token::RParen => TokenV::RParen,
            Token::Number(n) => TokenV::Number(*n),
            Token::Eof => TokenV::Eof,
        }
    }
}

/// The views of a token stream.
pub open spec fn tokens_view(v: Seq<(Token, usize)>) -> Seq<(TokenV, nat)> {
    v.map_values(|t: (Token, usize)| (t.0@, t.1 as nat))
}

/// ASCII whitespace (`u8::is_ascii_whitespace`).
pub open spec fn ascii_ws(c: char) -> bool {
    c == ' ' || c == '\t' || c == '\n' || c == '\x0C' || c == '\r'
}

/// An ASCII letter.
pub open spec fn ascii_alpha(c: char) -> bool {
    ('a' <= c && c <= 'z') || ('A' <= c && c <= 'Z')
}

/// An ASCII digit.
pub open spec fn ascii_digit(c: char) -> bool {
    '0' <= c && c <= '9'
}

/// A character that may start an identifier.
pub open spec fn ident_start(c: char) -> bool {
    ascii_alpha(c) || c == '_'
}

/// A character that may continue an identifier.
pub open spec fn ident_char(c: char) -> bool {
    ascii_alpha(c) || ascii_digit(c) || c == '_' || c == ':' || c == '-' || c == '.'
}

/// A character of a language tag.
pub open spec fn lang_char(c: char) -> bool {
    ascii_alpha(c) || ascii_digit(c) || c == '-'
}

/// The first index from `i` on whose character is not an identifier character.
pub open spec fn ident_end(s: Seq<char>, i: int) -> int
    decreases s.len() - i,
{
    if i < 0 || i >= s.len() || !ident_char(s[i]) { i } else { ident_end(s, i + 1) }
}

/// The first index from `i` on whose character is not a digit.
pub open spec fn digit_end(s: Seq<char>, i: int) -> int
    decreases s.len() - i,
{
    if i < 0 || i >= s.len() || !ascii_digit(s[i]) { i } else { digit_end(s, i + 1) }
}

/// The first index from `i` on whose character is not a language-tag character.
pub open spec fn lang_end(s: Seq<char>, i: int) -> int
    decreases s.len() - i,
{
    if i < 0 || i >= s.len() || !lang_char(s[i]) { i } else { lang_end(s, i + 1) }
}

/// The first index from `i` on holding `c`, else the end.
pub open spec fn find_char(s: Seq<char>, i: int, c: char) -> int
    decreases s.len() - i,
{
    if i < 0 || i >= s.len() || s[i] == c { i } else { find_char(s, i + 1, c) }
}

/// The body of a string literal whose opening quote precedes `k`, with escapes resolved,
/// and the index after its closing quote; `None` when it is unterminated.
pub open spec fn string_body(s: Seq<char>, k: int) -> Option<(Seq<char>, int)>
    decreases s.len() - k,
{
    if k < 0 || k >= s.len() {
        None
    } else if s[k] == '"' {
        Some((Seq::empty(), k + 1))
    } else if s[k] == '\\' && k + 1 < s.len() {
        match string_body(s, k + 2) {
            Some((b, e)) => Some((seq![s[k + 1]] + b, e)),
            None => None,
        }
    } else {
        match string_body(s, k + 1) {
            Some((b, e)) => Some((seq![s[k]] + b, e)),
            None => None,
        }
    }
}

/// Where a string literal ending at `p` really ends: past a `@lang` tag or a `^^datatype`.
pub open spec fn suffix_end(s: Seq<char>, p: int) -> int {
    if p < s.len() && s[p] == '@' {
        lang_end(s, p + 1)
    } else if p + 1 < s.len() && s[p] == '^' && s[p + 1] == '^' {
        if p + 2 < s.len() && s[p + 2] == '<' {
            find_char(s, p + 2, '>') + 1
        } else {
            ident_end(s, p + 2)
        }
    } else {
        p
    }
}

/// The token a name spells: a keyword or an identifier.
pub open spec fn classify(raw: Seq<char>) -> TokenV {
    if raw == "and"@ { TokenV::And }
    else if raw == "or"@ { TokenV::Or }
    else if raw == "not"@ { TokenV::Not }
    else if raw == "some"@ { TokenV::SomeKw }
    else if raw == "only"@ { TokenV::Only }
    else if raw == "min"@ { TokenV::Min }
    else if raw == "max"@ { TokenV::Max }
    else if raw == "exactly"@ { TokenV::Exactly }
    else if raw == "value"@ { TokenV::Value }
    else if raw == "that"@ { TokenV::That }
    else if raw == "Self"@ { TokenV::SelfKw }
    else { TokenV::Ident(raw) }
}

/// The keywords of the Manchester syntax: each keyword word is its keyword token, and every
/// other name is an identifier spelling itself.
pub proof fn lemma_keywords(w: Seq<char>)
    ensures
        classify("and"@) == TokenV::And,
        classify("or"@) == TokenV::Or,
        classify("not"@) == TokenV::Not,
        classify("some"@) == TokenV::SomeKw,
        classify("only"@) == TokenV::Only,
        classify("min"@) == TokenV::Min,
        classify("max"@) == TokenV::Max,
        classify("exactly"@) == TokenV::Exactly,
        classify("value"@) == TokenV::Value,
        classify("that"@) == TokenV::That,
        classify("Self"@) == TokenV::SelfKw,
        w != "and"@ && w != "or"@ && w != "not"@ && w != "some"@ && w != "only"@ && w != "min"@ && w != "max"@ && w != "exactly"@ && w != "value"@ && w != "that"@ && w != "Self"@ ==> classify(w) == TokenV::Ident(w),
{
    reveal_strlit("and");
    reveal_strlit("or");
    reveal_strlit("not");
    reveal_strlit("some");
    reveal_strlit("only");
    reveal_strlit("min");
    reveal_strlit("max");
    reveal_strlit("exactly");
    reveal_strlit("value");
    reveal_strlit("that");
    reveal_strlit("Self");
    assert("and"@ != "or"@) by { assert("and"@.len() != "or"@.len()); }
    assert("and"@ != "not"@) by { assert("and"@[0] != "not"@[0]); }
    assert("and"@ != "some"@) by { assert("and"@.len() != "some"@.len()); }
    assert("and"@ != "only"@) by { assert("and"@.len() != "only"@.len()); }
    assert("and"@ != "min"@) by { assert("and"@[0] != "min"@[0]); }
    assert("and"@ != "max"@) by { assert("and"@[0] != "max"@[0]); }
    assert("and"@ != "exactly"@) by { assert("and"@.len() != "exactly"@.len()); }
    assert("and"@ != "value"@) by { assert("and"@.len() != "value"@.len()); }
    assert("and"@ != "that"@) by { assert("and"@.len() != "that"@.len()); }
    assert("and"@ != "Self"@) by { assert("and"@.len() != "Self"@.len()); }
    assert("or"@ != "not"@) by { assert("or"@.len() != "not"@.len()); }
    assert("or"@ != "some"@) by { assert("or"@.len() != "some"@.len()); }
    assert("or"@ != "only"@) by { assert("or"@.len() != "only"@.len()); }
    assert("or"@ != "min"@) by { assert("or"@.len() != "min"@.len()); }
    assert("or"@ != "max"@) by { assert("or"@.len() != "max"@.len()); }
    assert("or"@ != "exactly"@) by { assert("or"@.len() != "exactly"@.len()); }
    assert("or"@ != "value"@) by { assert("or"@.len() != "value"@.len()); }
    assert("or"@ != "that"@) by { assert("or"@.len() != "that"@.len()); }
    assert("or"@ != "Self"@) by { assert("or"@.len() != "Self"@.len()); }
    assert("not"@ != "some"@) by { assert("not"@.len() != "some"@.len()); }
    assert("not"@ != "only"@) by { assert("not"@.len() != "only"@.len()); }
    assert("not"@ != "min"@) by { assert("not"@[0] != "min"@[0]); }
    assert("not"@ != "max"@) by { assert("not"@[0] != "max"@[0]); }
    assert("not"@ != "exactly"@) by { assert("not"@.len() != "exactly"@.len()); }
    assert("not"@ != "value"@) by { assert("not"@.len() != "value"@.len()); }
    assert("not"@ != "that"@) by { assert("not"@.len() != "that"@.len()); }
    assert("not"@ != "Self"@) by { assert("not"@.len() != "Self"@.len()); }
    assert("some"@ != "only"@) by { assert("some"@[0] != "only"@[0]); }
    assert("some"@ != "min"@) by { assert("some"@.len() != "min"@.len()); }
    assert("some"@ != "max"@) by { assert("some"@.len() != "max"@.len()); }
    assert("some"@ != "exactly"@) by { assert("some"@.len() != "exactly"@.len()); }
    assert("some"@ != "value"@) by { assert("some"@.len() != "value"@.len()); }
    assert("some"@ != "that"@) by { assert("some"@[0] != "that"@[0]); }
    assert("some"@ != "Self"@) by { assert("some"@[0] != "Self"@[0]); }
    assert("only"@ != "min"@) by { assert("only"@.len() != "min"@.len()); }
    assert("only"@ != "max"@) by { assert("only"@.len() != "max"@.len()); }
    assert("only"@ != "exactly"@) by { assert("only"@.len() != "exactly"@.len()); }
    assert("only"@ != "value"@) by { assert("only"@.len() != "value"@.len()); }
    assert("only"@ != "that"@) by { assert("only"@[0] != "that"@[0]); }
    assert("only"@ != "Self"@) by { assert("only"@[0] != "Self"@[0]); }
    assert("min"@ != "max"@) by { assert("min"@[1] != "max"@[1]); }
    assert("min"@ != "exactly"@) by { assert("min"@.len() != "exactly"@.len()); }
    assert("min"@ != "value"@) by { assert("min"@.len() != "value"@.len()); }
    assert("min"@ != "that"@) by { assert("min"@.len() != "that"@.len()); }
    assert("min"@ != "Self"@) by { assert("min"@.len() != "Self"@.len()); }
    assert("max"@ != "exactly"@) by { assert("max"@.len() != "exactly"@.len()); }
    assert("max"@ != "value"@) by { assert("max"@.len() != "value"@.len()); }
    assert("max"@ != "that"@) by { assert("max"@.len() != "that"@.len()); }
    assert("max"@ != "Self"@) by { assert("max"@.len() != "Self"@.len()); }
    assert("exactly"@ != "value"@) by { assert("exactly"@.len() != "value"@.len()); }
    assert("exactly"@ != "that"@) by { assert("exactly"@.len() != "that"@.len()); }
    assert("exactly"@ != "Self"@) by { assert("exactly"@.len() != "Self"@.len()); }
    assert("value"@ != "that"@) by { assert("value"@.len() != "that"@.len()); }
    assert("value"@ != "Self"@) by { assert("value"@.len() != "Self"@.len()); }
    assert("that"@ != "Self"@) by { assert("that"@[0] != "Self"@[0]); }
}

/// The byte offset of character `i` of `s` in its UTF-8 encoding.
pub open spec fn boff(s: Seq<char>, i: int) -> nat {
    encode_utf8(s.take(i)).len()
}

/// The first byte of the UTF-8 encoding of `c`, read as a character (as a byte-level scanner
/// reports it).
pub open spec fn lead_byte_char(c: char) -> char {
    (encode_scalar(c as u32)[0]) as char
}

/// `x` followed by the tokens of `r`, or `r`'s error.
pub open spec fn cons(x: (TokenV, nat), r: Result<Seq<(TokenV, nat)>, (nat, Seq<char>)>) -> Result<Seq<(TokenV, nat)>, (nat, Seq<char>)> {
    match r {
        Ok(v) => Ok(seq![x] + v),
        Err(e) => Err(e),
    }
}

/// The tokens of `s` from character `i` on, with their byte offsets and an end sentinel; or
/// the first lexical error's byte offset and message.
pub open spec fn lex_from(s: Seq<char>, i: int) -> Result<Seq<(TokenV, nat)>, (nat, Seq<char>)>
    decreases s.len() - i,
{
    if i < 0 || i >= s.len() {
        Ok(seq![(TokenV::Eof, boff(s, s.len() as int))])
    } else {
        let c = s[i];
        let at = boff(s, i);
        if ascii_ws(c) {
            lex_from(s, i + 1)
        } else if ident_start(c) {
            let j = ident_end(s, i);
            if j <= i || j > s.len() {
                Ok(Seq::empty())
            } else {
                cons((classify(s.subrange(i, j)), at), lex_from(s, j))
            }
        } else if ascii_digit(c) {
            let j = digit_end(s, i);
            if j <= i || j > s.len() {
                Ok(Seq::empty())
            } else {
                match parse_u32_spec(s.subrange(i, j)) {
                    None => Err((at, "integer literal `"@ + s.subrange(i, j) + "` overflows u32"@)),
                    Some(n) => cons((TokenV::Number(n), at), lex_from(s, j)),
                }
            }
        } else if c == '<' {
            let j = find_char(s, i + 1, '>');
            if j >= s.len() {
                Err((at, "unterminated `<…>` IRI"@))
            } else if j <= i {
                Ok(Seq::empty())
            } else {
                cons((TokenV::Iri(s.subrange(i + 1, j)), at), lex_from(s, j + 1))
            }
        } else if c == '"' {
            match string_body(s, i + 1) {
                None => Err((at, "unterminated string literal"@)),
                Some((body, e)) => {
                    let p = suffix_end(s, e);
                    let q = if p > s.len() { s.len() as int } else { p };
                    if q <= i {
                        Ok(Seq::empty())
                    } else {
                        cons((TokenV::Str(body), at), lex_from(s, q))
                    }
                },
            }
        } else if c == ',' {
            cons((TokenV::Comma, at), lex_from(s, i + 1))
        } else if c == '{' {
            cons((TokenV::LBrace, at), lex_from(s, i + 1))
        } else if c == '}' {
            cons((TokenV::RBrace, at), lex_from(s, i + 1))
        } else if c == '(' {
            cons((TokenV::LParen, at), lex_from(s, i + 1))
        } else if c == ')' {
            cons((TokenV::RParen, at), lex_from(s, i + 1))
        } else if c == '[' {
            Err((at, "data-range facets `[…]` are out of the v0 grammar (refused, not approximated)"@))
        } else {
            Err((at, "unexpected character `"@ + seq![lead_byte_char(c)] + "`"@))
        }
    }
}

/// The number of bytes of `s` in UTF-8.
pub open spec fn byte_len(s: Seq<char>) -> nat {
    encode_utf8(s).len()
}

/// Encoding distributes over concatenation.
pub proof fn lemma_encode_concat(a: Seq<char>, b: Seq<char>)
    ensures
        encode_utf8(a + b) == encode_utf8(a) + encode_utf8(b),
    decreases a.len(),
{
    if a.len() == 0 {
        assert(a + b =~= b);
        assert(encode_utf8(a) + encode_utf8(b) =~= encode_utf8(b));
    } else {
        assert((a + b).drop_first() =~= a.drop_first() + b);
        lemma_encode_concat(a.drop_first(), b);
        assert((a + b)[0] == a[0]);
        assert(encode_utf8(a + b) =~= encode_scalar(a[0] as u32) + encode_utf8(a.drop_first() + b));
        assert(encode_utf8(a) =~= encode_scalar(a[0] as u32) + encode_utf8(a.drop_first()));
    }
}

/// One character further, the byte offset grows by that character's width.
pub proof fn lemma_boff_step(s: Seq<char>, i: int)
    requires
        0 <= i < s.len(),
    ensures
        boff(s, i + 1) == boff(s, i) + encode_scalar(s[i] as u32).len(),
{
    assert(s.take(i + 1) =~= s.take(i) + seq![s[i]]);
    lemma_encode_concat(s.take(i), seq![s[i]]);
    assert(seq![s[i]].drop_first() =~= Seq::<char>::empty());
    assert(encode_utf8(seq![s[i]]) =~= encode_scalar(s[i] as u32) + encode_utf8(Seq::<char>::empty()));
}

/// Byte offsets stay within the encoding.
pub proof fn lemma_boff_bound(s: Seq<char>, i: int)
    requires
        0 <= i <= s.len(),
    ensures
        boff(s, i) <= byte_len(s),
{
    assert(s =~= s.take(i) + s.skip(i));
    lemma_encode_concat(s.take(i), s.skip(i));
}

/// An identifier run starting on an identifier character is not empty.
proof fn lemma_ident_end(s: Seq<char>, i: int)
    requires
        0 <= i < s.len(),
        ident_start(s[i]),
    ensures
        i < ident_end(s, i),
{
    lemma_ident_end_ge(s, i + 1);
}

proof fn lemma_ident_end_ge(s: Seq<char>, i: int)
    ensures
        i <= ident_end(s, i),
    decreases s.len() - i,
{
    if 0 <= i < s.len() && ident_char(s[i]) {
        lemma_ident_end_ge(s, i + 1);
    }
}

/// A digit run starting on a digit is not empty.
proof fn lemma_digit_end(s: Seq<char>, i: int)
    requires
        0 <= i < s.len(),
        ascii_digit(s[i]),
    ensures
        i < digit_end(s, i),
{
    lemma_digit_end_ge(s, i + 1);
}

proof fn lemma_digit_end_ge(s: Seq<char>, i: int)
    ensures
        i <= digit_end(s, i),
    decreases s.len() - i,
{
    if 0 <= i < s.len() && ascii_digit(s[i]) {
        lemma_digit_end_ge(s, i + 1);
    }
}

/// The number of UTF-8 bytes of `c`.
pub(crate) fn utf8_width(c: char) -> (r: usize)
    ensures
        r == encode_scalar(c as u32).len(),
        1 <= r <= 4,
{
    proof { vstd::utf8::char_is_scalar(c); }
    let u = c as u32;
    if u <= 0x7F {
        1
    } else if u <= 0x7FF {
        2
    } else if u <= 0xFFFF {
        3
    } else {
        4
    }
}

/// The first UTF-8 byte of `c`.
fn lead_byte(c: char) -> (r: u8)
    ensures
        r == encode_scalar(c as u32)[0],
{
    proof { vstd::utf8::char_is_scalar(c); }
    let u = c as u32;
    if u <= 0x7F {
        (u & 0x7F) as u8
    } else if u <= 0x7FF {
        0xC0 | ((u >> 6) & 0x1F) as u8
    } else if u <= 0xFFFF {
        0xE0 | ((u >> 12) & 0x0F) as u8
    } else {
        0xF0 | ((u >> 18) & 0x7) as u8
    }
}

/// The byte offset of character `j`, from that of character `i`.
fn boff_at(v: &Vec<char>, i: usize, bo: usize, j: usize) -> (r: usize)
    requires
        i <= j <= v@.len(),
        bo == boff(v@, i as int),
        byte_len(v@) <= usize::MAX,
    ensures
        r == boff(v@, j as int),
{
    let mut k = i;
    let mut b = bo;
    while k < j
        invariant
            i <= k <= j <= v@.len(),
            b == boff(v@, k as int),
            byte_len(v@) <= usize::MAX,
        decreases j - k,
    {
        proof {
            lemma_boff_step(v@, k as int);
            lemma_boff_bound(v@, k + 1);
        }
        b = b + utf8_width(v[k]);
        k += 1;
    }
    b
}

fn is_ascii_ws(c: char) -> (r: bool)
    ensures
        r == ascii_ws(c),
{
    c == ' ' || c == '\t' || c == '\n' || c == '\x0C' || c == '\r'
}

fn is_alpha(c: char) -> (r: bool)
    ensures
        r == ascii_alpha(c),
{
    ('a' <= c && c <= 'z') || ('A' <= c && c <= 'Z')
}

fn is_digit(c: char) -> (r: bool)
    ensures
        r == ascii_digit(c),
{
    '0' <= c && c <= '9'
}

fn is_ident_char(c: char) -> (r: bool)
    ensures
        r == ident_char(c),
{
    is_alpha(c) || is_digit(c) || c == '_' || c == ':' || c == '-' || c == '.'
}

fn is_lang_char(c: char) -> (r: bool)
    ensures
        r == lang_char(c),
{
    is_alpha(c) || is_digit(c) || c == '-'
}

/// The end of the identifier run from `i`.
fn scan_ident(v: &Vec<char>, i: usize) -> (j: usize)
    requires
        i <= v@.len(),
    ensures
        i <= j <= v@.len(),
        j == ident_end(v@, i as int),
{
    let mut j = i;
    while j < v.len() && is_ident_char(v[j])
        invariant
            i <= j <= v@.len(),
            ident_end(v@, i as int) == ident_end(v@, j as int),
        decreases v@.len() - j,
    {
        j += 1;
    }
    j
}

/// The end of the digit run from `i`.
fn scan_digits(v: &Vec<char>, i: usize) -> (j: usize)
    requires
        i <= v@.len(),
    ensures
        i <= j <= v@.len(),
        j == digit_end(v@, i as int),
{
    let mut j = i;
    while j < v.len() && is_digit(v[j])
        invariant
            i <= j <= v@.len(),
            digit_end(v@, i as int) == digit_end(v@, j as int),
        decreases v@.len() - j,
    {
        j += 1;
    }
    j
}

/// The end of the language-tag run from `i`.
fn scan_lang(v: &Vec<char>, i: usize) -> (j: usize)
    requires
        i <= v@.len(),
    ensures
        i <= j <= v@.len(),
        j == lang_end(v@, i as int),
{
    let mut j = i;
    while j < v.len() && is_lang_char(v[j])
        invariant
            i <= j <= v@.len(),
            lang_end(v@, i as int) == lang_end(v@, j as int),
        decreases v@.len() - j,
    {
        j += 1;
    }
    j
}

/// The first index from `i` on holding `c`, else the end.
fn scan_to(v: &Vec<char>, i: usize, c: char) -> (j: usize)
    requires
        i <= v@.len(),
    ensures
        i <= j <= v@.len(),
        j == find_char(v@, i as int, c),
{
    let mut j = i;
    while j < v.len() && v[j] != c
        invariant
            i <= j <= v@.len(),
            find_char(v@, i as int, c) == find_char(v@, j as int, c),
        decreases v@.len() - j,
    {
        j += 1;
    }
    j
}

/// `acc` before the body of `o`, or `None`.
pub open spec fn body_after(acc: Seq<char>, o: Option<(Seq<char>, int)>) -> Option<(Seq<char>, int)> {
    match o {
        Some((b, e)) => Some((acc + b, e)),
        None => None,
    }
}

/// Scan a string literal whose opening quote is at `i`.
fn scan_string(v: &Vec<char>, i: usize) -> (r: Option<(String, usize)>)
    requires
        i < v@.len(),
    ensures
        match string_body(v@, i + 1) {
            Some((b, e)) => r matches Some((t, k)) && t@ == b && k == e && i < e <= v@.len(),
            None => r is None,
        },
{
    let n = v.len();
    let mut acc = String::new();
    let mut k = i + 1;
    proof {
        assert(body_after(acc@, string_body(v@, i + 1)) =~= string_body(v@, i + 1)) by {
            match string_body(v@, i + 1) {
                Some((b, e)) => { assert(acc@ + b =~= b); },
                None => {},
            }
        }
        lemma_string_body_bound(v@, i + 1);
    }
    while k < v.len() && v[k] != '"'
        invariant
            i < k <= v@.len(),
            string_body(v@, i + 1) == body_after(acc@, string_body(v@, k as int)),
            string_body(v@, k as int) matches Some((b, e)) ==> k < e <= v@.len(),
        decreases v@.len() - k,
    {
        let ghost a0 = acc@;
        if v[k] == '\\' && k + 1 < v.len() {
            push_char(&mut acc, v[k + 1]);
            proof {
                lemma_string_body_bound(v@, k + 2);
                match string_body(v@, k + 2) {
                    Some((b, e)) => { assert(a0 + (seq![v@[k + 1]] + b) =~= acc@ + b); },
                    None => {},
                }
            }
            k += 2;
        } else {
            push_char(&mut acc, v[k]);
            proof {
                lemma_string_body_bound(v@, k + 1);
                match string_body(v@, k + 1) {
                    Some((b, e)) => { assert(a0 + (seq![v@[k as int]] + b) =~= acc@ + b); },
                    None => {},
                }
            }
            k += 1;
        }
    }
    if k >= v.len() {
        return None;
    }
    proof {
        assert(acc@ + Seq::<char>::empty() =~= acc@);
    }
    Some((acc, k + 1))
}

/// A string literal's end lies after its start and within the input.
proof fn lemma_string_body_bound(s: Seq<char>, k: int)
    requires
        0 <= k,
    ensures
        string_body(s, k) matches Some((b, e)) ==> k < e <= s.len(),
    decreases s.len() - k,
{
    if k < s.len() && s[k] != '"' {
        if s[k] == '\\' && k + 1 < s.len() {
            lemma_string_body_bound(s, k + 2);
        } else {
            lemma_string_body_bound(s, k + 1);
        }
    }
}

/// The keyword or identifier token that `v[i..j]` spells.
fn classify_ident(v: &Vec<char>, i: usize, j: usize) -> (t: Token)
    requires
        i <= j <= v@.len(),
    ensures
        t@ == classify(v@.subrange(i as int, j as int)),
{
    let raw = string_of(v, i, j);
    let r = raw.as_str();
    if eq_str(r, "and") { Token::And }
    else if eq_str(r, "or") { Token::Or }
    else if eq_str(r, "not") { Token::Not }
    else if eq_str(r, "some") { Token::SomeKw }
    else if eq_str(r, "only") { Token::Only }
    else if eq_str(r, "min") { Token::Min }
    else if eq_str(r, "max") { Token::Max }
    else if eq_str(r, "exactly") { Token::Exactly }
    else if eq_str(r, "value") { Token::Value }
    else if eq_str(r, "that") { Token::That }
    else if eq_str(r, "Self") { Token::SelfKw }
    else { Token::Ident(raw) }
}

/// `acc` before the tokens of `r`, or `r`'s error.
pub open spec fn toks_after(acc: Seq<(TokenV, nat)>, r: Result<Seq<(TokenV, nat)>, (nat, Seq<char>)>) -> Result<Seq<(TokenV, nat)>, (nat, Seq<char>)> {
    match r {
        Ok(v) => Ok(acc + v),
        Err(e) => Err(e),
    }
}

/// The lexical error at byte `pos`.
fn lex_err(pos: usize, msg: String) -> (e: ManchesterError)
    ensures
        e == (ManchesterError::Lex { pos, msg }),
{
    ManchesterError::Lex { pos, msg }
}

/// The UTF-8 length of a string fits in `usize`.
fn byte_bound(input: &str)
    ensures
        byte_len(input@) <= usize::MAX,
{
    let nb = input.as_bytes().len();
    assert(byte_len(input@) == nb);
}

/// Tokenize a Manchester expression or section body into `(token, byte offset)` pairs with
/// an end sentinel appended.
#[verifier::rlimit(80)]
pub fn tokenize(input: &str) -> (r: Result<Vec<(Token, usize)>, ManchesterError>)
    ensures
        match lex_from(input@, 0) {
            Ok(ts) => r matches Ok(v) && tokens_view(v@) == ts,
            Err((p, m)) => r matches Err(ManchesterError::Lex { pos, msg }) && pos == p && msg@ == m,
        },
{
    byte_bound(input);
    let v = chars_of(input);
    let ghost s = v@;
    let mut tokens: Vec<(Token, usize)> = Vec::new();
    let mut i: usize = 0;
    let mut bo: usize = 0;
    proof {
        assert(s.take(0) =~= Seq::<char>::empty());
        assert(toks_after(tokens_view(tokens@), lex_from(s, 0)) =~= lex_from(s, 0)) by {
            match lex_from(s, 0) {
                Ok(w) => { assert(tokens_view(tokens@) + w =~= w); },
                Err(e) => {},
            }
        }
    }
    while i < v.len()
        invariant
            s == v@,
            s == input@,
            byte_len(s) <= usize::MAX,
            i <= s.len(),
            bo == boff(s, i as int),
            lex_from(s, 0) == toks_after(tokens_view(tokens@), lex_from(s, i as int)),
        decreases s.len() - i,
    {
        let c = v[i];
        let ghost acc = tokens_view(tokens@);
        let start = bo;
        if is_ascii_ws(c) {
            bo = boff_at(&v, i, bo, i + 1);
            i += 1;
        } else if is_alpha(c) || c == '_' {
            let j = scan_ident(&v, i);
            proof { lemma_ident_end(s, i as int); }
            let t = classify_ident(&v, i, j);
            tokens.push((t, start));
            proof {
                assert(tokens_view(tokens@) =~= acc.push((classify(s.subrange(i as int, j as int)), start as nat)));
                match lex_from(s, j as int) {
                    Ok(w) => { assert(acc + (seq![(classify(s.subrange(i as int, j as int)), start as nat)] + w) =~= tokens_view(tokens@) + w); },
                    Err(_) => {},
                }
            }
            bo = boff_at(&v, i, bo, j);
            i = j;
        } else if is_digit(c) {
            let j = scan_digits(&v, i);
            proof { lemma_digit_end(s, i as int); }
            let raw = string_of(&v, i, j);
            match parse_u32(&raw) {
                None => {
                    let msg = crate::text::cat(crate::text::cat(String::from_str("integer literal `"), raw.as_str()), "` overflows u32");
                    return Err(lex_err(start, msg));
                },
                Some(n) => {
                    tokens.push((Token::Number(n), start));
                    proof {
                        match lex_from(s, j as int) {
                            Ok(w) => { assert(acc + (seq![(TokenV::Number(n), start as nat)] + w) =~= tokens_view(tokens@) + w); },
                            Err(_) => {},
                        }
                    }
                },
            }
            bo = boff_at(&v, i, bo, j);
            i = j;
        } else if c == '<' {
            let j = scan_to(&v, i + 1, '>');
            if j >= v.len() {
                return Err(lex_err(start, String::from_str("unterminated `<…>` IRI")));
            }
            let iri = string_of(&v, i + 1, j);
            tokens.push((Token::Iri(iri), start));
            proof {
                match lex_from(s, j + 1) {
                    Ok(w) => { assert(acc + (seq![(TokenV::Iri(s.subrange(i + 1, j as int)), start as nat)] + w) =~= tokens_view(tokens@) + w); },
                    Err(_) => {},
                }
            }
            bo = boff_at(&v, i, bo, j + 1);
            i = j + 1;
        } else if c == '"' {
            match scan_string(&v, i) {
                None => return Err(lex_err(start, String::from_str("unterminated string literal"))),
                Some((body, e)) => {
                    let mut p = e;
                    if p < v.len() && v[p] == '@' {
                        p = scan_lang(&v, p + 1);
                    } else if p < v.len() && p + 1 < v.len() && v[p] == '^' && v[p + 1] == '^' {
                        if p + 2 < v.len() && v[p + 2] == '<' {
                            p = scan_to(&v, p + 2, '>');
                            if p < v.len() {
                                p = p + 1;
                            }
                        } else {
                            p = scan_ident(&v, p + 2);
                        }
                    }
                    let ghost q = {
                        let pp = suffix_end(s, e as int);
                        if pp > s.len() { s.len() as int } else { pp }
                    };
                    assert(p == q);
                    let ghost bstr = body@;
                    tokens.push((Token::Str(body), start));
                    proof {
                        match lex_from(s, q) {
                            Ok(w) => { assert(acc + (seq![(TokenV::Str(bstr), start as nat)] + w) =~= tokens_view(tokens@) + w); },
                            Err(_) => {},
                        }
                    }
                    bo = boff_at(&v, i, bo, p);
                    i = p;
                },
            }
        } else {
            let t = if c == ',' {
                Token::Comma
            } else if c == '{' {
                Token::LBrace
            } else if c == '}' {
                Token::RBrace
            } else if c == '(' {
                Token::LParen
            } else if c == ')' {
                Token::RParen
            } else if c == '[' {
                return Err(lex_err(start, String::from_str("data-range facets `[…]` are out of the v0 grammar (refused, not approximated)")));
            } else {
                let mut m = String::from_str("unexpected character `");
                push_char(&mut m, lead_byte(c) as char);
                m.append("`");
                return Err(lex_err(start, m));
            };
            let ghost tv = t@;
            tokens.push((t, start));
            proof {
                match lex_from(s, i + 1) {
                    Ok(w) => { assert(acc + (seq![(tv, start as nat)] + w) =~= tokens_view(tokens@) + w); },
                    Err(_) => {},
                }
            }
            bo = boff_at(&v, i, bo, i + 1);
            i += 1;
        }
    }
    let ghost acc = tokens_view(tokens@);
    proof { assert(s.take(s.len() as int) =~= s); }
    tokens.push((Token::Eof, bo));
    proof {
        assert(tokens_view(tokens@) =~= acc + seq![(TokenV::Eof, boff(s, s.len() as int))]);
    }
    Ok(tokens)
}

/// How a token is named in a message.
pub open spec fn describe(t: TokenV) -> Seq<char> {
    match t {
        TokenV::Ident(s) => "identifier `"@ + s + "`"@,
        TokenV::Iri(s) => "IRI `<"@ + s + ">`"@,
        TokenV::Str(_) => "string literal"@,
        TokenV::And => "`and`"@,
        TokenV::Or => "`or`"@,
        TokenV::Not => "`not`"@,
        TokenV::SomeKw => "`some`"@,
        TokenV::Only => "`only`"@,
        TokenV::Min => "`min`"@,
        TokenV::Max => "`max`"@,
        TokenV::Exactly => "`exactly`"@,
        TokenV::Value => "`value`"@,
        TokenV::That => "`that`"@,
        TokenV::SelfKw => "`Self`"@,
        TokenV::Comma => "`,`"@,
        TokenV::LBrace => "`{`"@,
        TokenV::RBrace => "`}`"@,
        TokenV::LParen => "`(`"@,
        TokenV::RParen => "`)`"@,
        TokenV::Number(n) => "number `"@ + crate::text::decimal(n as nat) + "`"@,
        TokenV::Eof => "end of input"@,
    }
}

impl Token {
    /// How the token is named in a message.
    pub fn describe(&self) -> (r: String)
        ensures
            r@ == describe(self@),
    {
        match self {
            Token::Ident(s) => crate::text::cat(crate::text::cat(String::from_str("identifier `"), s.as_str()), "`"),
            Token::Iri(s) => crate::text::cat(crate::text::cat(String::from_str("IRI `<"), s.as_str()), ">`"),
            Token::Str(_) => String::from_str("string literal"),
            Token::And => String::from_str("`and`"),
            Token::Or => String::from_str("`or`"),
            Token::Not => String::from_str("`not`"),
            Token::SomeKw => String::from_str("`some`"),
            Token::Only => String::from_str("`only`"),
            Token::Min => String::from_str("`min`"),
            Token::Max => String::from_str("`max`"),
            Token::Exactly => String::from_str("`exactly`"),
            Token::Value => String::from_str("`value`"),
            Token::That => String::from_str("`that`"),
            Token::SelfKw => String::from_str("`Self`"),
            Token::Comma => String::from_str("`,`"),
            Token::LBrace => String::from_str("`{`"),
            Token::RBrace => String::from_str("`}`"),
            Token::LParen => String::from_str("`(`"),
            Token::RParen => String::from_str("`)`"),
            Token::Number(n) => crate::text::cat(crate::text::cat(String::from_str("number `"), crate::text::fmt_u64(*n as u64).as_str()), "`"),
            Token::Eof => String::from_str("end of input"),
        }
    }

    /// A copy of the token.
    pub fn copy(&self) -> (r: Token)
        ensures
            r@ == self@,
    {
        match self {
            Token::Ident(s) => Token::Ident(s.clone()),
            Token::Iri(s) => Token::Iri(s.clone()),
            Token::Str(s) => Token::Str(s.clone()),
            Token::And => Token::And,
            Token::Or => Token::Or,
            Token::Not => Token::Not,
            Token::SomeKw => Token::SomeKw,
            Token::Only => Token::Only,
            Token::Min => Token::Min,
            Token::Max => Token::Max,
            Token::Exactly => Token::Exactly,
            Token::Value => Token::Value,
            Token::That => Token::That,
            Token::SelfKw => Token::SelfKw,
            Token::Comma => Token::Comma,
            Token::LBrace => Token::LBrace,
            Token::RBrace => Token::RBrace,
            Token::LParen => Token::LParen,
            Token::RParen => Token::RParen,
            Token::Number(n) => Token::Number(*n),
            Token::Eof => Token::Eof,
        }
    }
}

} // verus!
