//! Tokens of Manchester class expressions and the tokenizer that produces them.
use vstd::prelude::*;
use crate::iri::{debug_rendering, debug_text};
use crate::text::{
    byte_offset, char_width, chars_of, decimal, decimal_exec, eq_ignore_case, eq_ignore_case_exec,
    is_ascii_digit, is_ws, lemma_byte_offset_bound, lemma_byte_offset_step, lemma_next_char_bounds,
    next_char, next_char_exec, push_all, push_str, slice_chars, ws,
};
use crate::unicode::{alnum, is_alphabetic, is_alphanumeric, unicode_alphabetic};

verus! {

/// Reserved words of the expression syntax (matched without regard to ASCII case).
#[derive(Debug, Clone, Copy, PartialEq, Eq, Structural)]
pub enum Keyword {
    And,
    Or,
    SomeKw,
    Only,
    Min,
    Max,
    Exactly,
    Not,
    Value,
    SelfKw,
}

/// A token of a class expression.
#[derive(Debug)]
pub enum Token {
    Ident(Vec<char>),
    Iri(Vec<char>),
    StringLit(Vec<char>),
    Keyword(Keyword),
    Number(u32),
    LParen,
    RParen,
    LBrace,
    RBrace,
    Eof,
}

/// A token as mathematical text.
pub enum TokenV {
    Ident(Seq<char>),
    Iri(Seq<char>),
    StringLit(Seq<char>),
    Keyword(Keyword),
    Number(u32),
    LParen,
    RParen,
    LBrace,
    RBrace,
    Eof,
}

impl View for Token {
    type V = TokenV;

    open spec fn view(&self) -> TokenV {
        match self {
            Token::Ident(s) => TokenV::Ident(s@),
            Token::Iri(s) => TokenV::Iri(s@),
            Token::StringLit(s) => TokenV::StringLit(s@),
            Token::Keyword(k) => TokenV::Keyword(*k),
            Token::Number(n) => TokenV::Number(*n),
            Token::LParen => TokenV::LParen,
            Token::RParen => TokenV::RParen,
            Token::LBrace => TokenV::LBrace,
            Token::RBrace => TokenV::RBrace,
            Token::Eof => TokenV::Eof,
        }
    }
}

/// The tokens of a vector, as mathematical values.
pub open spec fn toks_v(v: Seq<Token>) -> Seq<TokenV> {
    v.map_values(|x: Token| x@)
}

fn clone_chars(v: &Vec<char>) -> (r: Vec<char>)
    ensures
        r@ == v@,
{
    let r = slice_chars(v.as_slice(), 0, v.len());
    assert(r@ =~= v@);
    r
}

/// A copy of a token.
pub fn copy_token(t: &Token) -> (r: Token)
    ensures
        r@ == t@,
{
    match t {
        Token::Ident(s) => Token::Ident(clone_chars(s)),
        Token::Iri(s) => Token::Iri(clone_chars(s)),
        Token::StringLit(s) => Token::StringLit(clone_chars(s)),
        Token::Keyword(k) => Token::Keyword(*k),
        Token::Number(n) => Token::Number(*n),
        Token::LParen => Token::LParen,
        Token::RParen => Token::RParen,
        Token::LBrace => Token::LBrace,
        Token::RBrace => Token::RBrace,
        Token::Eof => Token::Eof,
    }
}

/// Name of a keyword in a token's debug rendering.
pub open spec fn keyword_name(k: Keyword) -> Seq<char> {
    match k {
        Keyword::And => "And"@,
        Keyword::Or => "Or"@,
        Keyword::SomeKw => "Some"@,
        Keyword::Only => "Only"@,
        Keyword::Min => "Min"@,
        Keyword::Max => "Max"@,
        Keyword::Exactly => "Exactly"@,
        Keyword::Not => "Not"@,
        Keyword::Value => "Value"@,
        Keyword::SelfKw => "SelfKw"@,
    }
}

/// Debug rendering of a token, as quoted in parse errors.
pub open spec fn token_debug(t: TokenV) -> Seq<char> {
    match t {
        TokenV::Ident(s) => "Ident("@ + debug_rendering(s) + ")"@,
        TokenV::Iri(s) => "Iri("@ + debug_rendering(s) + ")"@,
        TokenV::StringLit(s) => "StringLit("@ + debug_rendering(s) + ")"@,
        TokenV::Keyword(k) => "Keyword("@ + keyword_name(k) + ")"@,
        TokenV::Number(n) => "Number("@ + decimal(n as nat) + ")"@,
        TokenV::LParen => "LParen"@,
        TokenV::RParen => "RParen"@,
        TokenV::LBrace => "LBrace"@,
        TokenV::RBrace => "RBrace"@,
        TokenV::Eof => "Eof"@,
    }
}

fn keyword_name_exec(k: Keyword) -> (r: Vec<char>)
    ensures
        r@ == keyword_name(k),
{
    match k {
        Keyword::And => chars_of("And"),
        Keyword::Or => chars_of("Or"),
        Keyword::SomeKw => chars_of("Some"),
        Keyword::Only => chars_of("Only"),
        Keyword::Min => chars_of("Min"),
        Keyword::Max => chars_of("Max"),
        Keyword::Exactly => chars_of("Exactly"),
        Keyword::Not => chars_of("Not"),
        Keyword::Value => chars_of("Value"),
        Keyword::SelfKw => chars_of("SelfKw"),
    }
}

fn wrapped(name: &str, inner: &[char]) -> (r: Vec<char>)
    ensures
        r@ == name@ + inner@ + ")"@,
{
    let mut out = chars_of(name);
    push_all(&mut out, inner);
    push_str(&mut out, ")");
    out
}

pub fn token_debug_exec(t: &Token) -> (r: Vec<char>)
    ensures
        r@ == token_debug(t@),
{
    match t {
        Token::Ident(s) => wrapped("Ident(", debug_text(s.as_slice()).as_slice()),
        Token::Iri(s) => wrapped("Iri(", debug_text(s.as_slice()).as_slice()),
        Token::StringLit(s) => wrapped("StringLit(", debug_text(s.as_slice()).as_slice()),
        Token::Keyword(k) => wrapped("Keyword(", keyword_name_exec(*k).as_slice()),
        Token::Number(n) => wrapped("Number(", decimal_exec(*n as u64).as_slice()),
        Token::LParen => chars_of("LParen"),
        Token::RParen => chars_of("RParen"),
        Token::LBrace => chars_of("LBrace"),
        Token::RBrace => chars_of("RBrace"),
        Token::Eof => chars_of("Eof"),
    }
}

/// The keyword spelled by `w`, if any.
pub open spec fn keyword_of(w: Seq<char>) -> Option<Keyword> {
    if eq_ignore_case(w, "and"@) {
        Some(Keyword::And)
    } else if eq_ignore_case(w, "or"@) {
        Some(Keyword::Or)
    } else if eq_ignore_case(w, "some"@) {
        Some(Keyword::SomeKw)
    } else if eq_ignore_case(w, "only"@) {
        Some(Keyword::Only)
    } else if eq_ignore_case(w, "min"@) {
        Some(Keyword::Min)
    } else if eq_ignore_case(w, "max"@) {
        Some(Keyword::Max)
    } else if eq_ignore_case(w, "exactly"@) {
        Some(Keyword::Exactly)
    } else if eq_ignore_case(w, "not"@) {
        Some(Keyword::Not)
    } else if eq_ignore_case(w, "value"@) {
        Some(Keyword::Value)
    } else if eq_ignore_case(w, "self"@) {
        Some(Keyword::SelfKw)
    } else {
        None
    }
}

fn is_kw(w: &[char], k: &str) -> (r: bool)
    ensures
        r == eq_ignore_case(w@, k@),
{
    let v = chars_of(k);
    eq_ignore_case_exec(w, v.as_slice())
}

fn keyword_exec(w: &[char]) -> (r: Option<Keyword>)
    ensures
        r == keyword_of(w@),
{
    if is_kw(w, "and") {
        Some(Keyword::And)
    } else if is_kw(w, "or") {
        Some(Keyword::Or)
    } else if is_kw(w, "some") {
        Some(Keyword::SomeKw)
    } else if is_kw(w, "only") {
        Some(Keyword::Only)
    } else if is_kw(w, "min") {
        Some(Keyword::Min)
    } else if is_kw(w, "max") {
        Some(Keyword::Max)
    } else if is_kw(w, "exactly") {
        Some(Keyword::Exactly)
    } else if is_kw(w, "not") {
        Some(Keyword::Not)
    } else if is_kw(w, "value") {
        Some(Keyword::Value)
    } else if is_kw(w, "self") {
        Some(Keyword::SelfKw)
    } else {
        None
    }
}

/// Characters that may continue a name.
pub open spec fn is_ident_char(c: char) -> bool {
    alnum(c) || c == '_' || c == ':' || c == '-'
}

/// End of the run of name characters starting at `i`.
pub open spec fn ident_end(t: Seq<char>, i: int) -> int
    decreases t.len() - i,
{
    if i < 0 || i >= t.len() {
        t.len() as int
    } else if is_ident_char(t[i]) {
        ident_end(t, i + 1)
    } else {
        i
    }
}

/// End of the run of ASCII digits starting at `i`.
pub open spec fn digit_end(t: Seq<char>, i: int) -> int
    decreases t.len() - i,
{
    if i < 0 || i >= t.len() {
        t.len() as int
    } else if is_ascii_digit(t[i]) {
        digit_end(t, i + 1)
    } else {
        i
    }
}

pub proof fn lemma_ident_end(t: Seq<char>, i: int)
    requires
        0 <= i <= t.len(),
    ensures
        i <= ident_end(t, i) <= t.len(),
    decreases t.len() - i,
{
    if i < t.len() && is_ident_char(t[i]) {
        lemma_ident_end(t, i + 1);
    }
}

pub proof fn lemma_digit_end(t: Seq<char>, i: int)
    requires
        0 <= i <= t.len(),
    ensures
        i <= digit_end(t, i) <= t.len(),
        forall|k: int| i <= k < digit_end(t, i) ==> is_ascii_digit(#[trigger] t[k]),
    decreases t.len() - i,
{
    if i < t.len() && is_ascii_digit(t[i]) {
        lemma_digit_end(t, i + 1);
    }
}

/// Value of a run of decimal digits.
pub open spec fn digits_value(s: Seq<char>) -> nat
    decreases s.len(),
{
    if s.len() == 0 {
        0
    } else {
        digits_value(s.drop_last()) * 10 + ((s.last() as u32) - 48) as nat
    }
}

/// Body of a quoted string starting at `j` (after the opening quote): the unescaped text and
/// the index after the closing quote, or `None` when the quote is never closed. A backslash
/// keeps the character that follows it.
pub open spec fn scan_string(t: Seq<char>, j: int) -> Option<(Seq<char>, int)>
    decreases t.len() - j,
{
    if j < 0 || j >= t.len() {
        None
    } else if t[j] == '"' {
        Some((Seq::empty(), j + 1))
    } else if t[j] == '\\' {
        if j + 1 >= t.len() {
            None
        } else {
            match scan_string(t, j + 2) {
                Some((s, k)) => Some((seq![t[j + 1]] + s, k)),
                None => None,
            }
        }
    } else {
        match scan_string(t, j + 1) {
            Some((s, k)) => Some((seq![t[j]] + s, k)),
            None => None,
        }
    }
}

pub proof fn lemma_scan_string(t: Seq<char>, j: int)
    ensures
        scan_string(t, j) matches Some((s, k)) ==> j < k <= t.len(),
    decreases t.len() - j,
{
    if 0 <= j < t.len() && t[j] != '"' {
        if t[j] == '\\' && j + 1 < t.len() {
            lemma_scan_string(t, j + 2);
        } else if t[j] != '\\' {
            lemma_scan_string(t, j + 1);
        }
    }
}

/// A token in front of the rest of a token list.
pub open spec fn cons_tok(x: TokenV, r: Result<Seq<TokenV>, Seq<char>>) -> Result<
    Seq<TokenV>,
    Seq<char>,
> {
    match r {
        Ok(s) => Ok(seq![x] + s),
        Err(e) => Err(e),
    }
}

/// Tokens in front of the rest of a token list.
pub open spec fn prepend_toks(p: Seq<TokenV>, r: Result<Seq<TokenV>, Seq<char>>) -> Result<
    Seq<TokenV>,
    Seq<char>,
> {
    match r {
        Ok(s) => Ok(p + s),
        Err(e) => Err(e),
    }
}

/// `" at "` and the byte offset of character `i`.
pub open spec fn at_byte(t: Seq<char>, i: int) -> Seq<char> {
    " at "@ + decimal(byte_offset(t, i) as nat)
}

/// Tokens of `t` from character `i` on, ending with `Eof`; or the error message.
pub open spec fn lex_from(t: Seq<char>, i: int) -> Result<Seq<TokenV>, Seq<char>>
    decreases t.len() - i,
{
    if i < 0 || i >= t.len() {
        Ok(seq![TokenV::Eof])
    } else {
        let c = t[i];
        if is_ws(c) {
            lex_from(t, i + 1)
        } else if c == '(' {
            cons_tok(TokenV::LParen, lex_from(t, i + 1))
        } else if c == ')' {
            cons_tok(TokenV::RParen, lex_from(t, i + 1))
        } else if c == '{' {
            cons_tok(TokenV::LBrace, lex_from(t, i + 1))
        } else if c == '}' {
            cons_tok(TokenV::RBrace, lex_from(t, i + 1))
        } else if c == '"' {
            match scan_string(t, i + 1) {
                None => Err("unclosed string starting"@ + at_byte(t, i)),
                Some((s, k)) => {
                    proof {
                        lemma_scan_string(t, i + 1);
                    }
                    cons_tok(TokenV::StringLit(s), lex_from(t, k))
                },
            }
        } else if c == '<' {
            let k = next_char(t, i + 1, '>');
            if k >= t.len() {
                Err("unclosed IRI starting"@ + at_byte(t, i))
            } else {
                proof {
                    lemma_next_char_bounds(t, i + 1, '>');
                }
                cons_tok(TokenV::Iri(t.subrange(i + 1, k)), lex_from(t, k + 1))
            }
        } else if is_ascii_digit(c) {
            let d = digit_end(t, i + 1);
            let v = digits_value(t.subrange(i, d));
            if v > u32::MAX {
                Err("invalid number"@ + at_byte(t, i))
            } else {
                proof {
                    lemma_digit_end(t, i + 1);
                }
                cons_tok(TokenV::Number(v as u32), lex_from(t, d))
            }
        } else if unicode_alphabetic(c) || c == '_' || c == ':' {
            let e = ident_end(t, i + 1);
            let w = t.subrange(i, e);
            proof {
                lemma_ident_end(t, i + 1);
            }
            cons_tok(
                match keyword_of(w) {
                    Some(k) => TokenV::Keyword(k),
                    None => TokenV::Ident(w),
                },
                lex_from(t, e),
            )
        } else {
            Err("unexpected character '"@ + seq![c] + "'"@ + at_byte(t, i))
        }
    }
}

/// Byte offset of character `i` of `s`.
fn offset_of(s: &str, t: &[char], i: usize) -> (r: usize)
    requires
        t@ == s@,
        i <= t.len(),
    ensures
        r == byte_offset(t@, i as int),
{
    let total = s.as_bytes().len();
    assert(total == vstd::utf8::encode_utf8(t@).len());
    let mut acc: usize = 0;
    let mut k: usize = 0;
    assert(t@.take(0) =~= Seq::<char>::empty());
    assert(vstd::utf8::encode_utf8(Seq::<char>::empty()).len() == 0);
    while k < i
        invariant
            k <= i <= t.len(),
            acc as int == byte_offset(t@, k as int),
            total == vstd::utf8::encode_utf8(t@).len(),
        decreases i - k,
    {
        proof {
            lemma_byte_offset_step(t@, k as int);
            lemma_byte_offset_bound(t@, k + 1);
        }
        acc = acc + char_width(t[k]);
        k += 1;
    }
    acc
}

fn at_byte_exec(s: &str, t: &[char], i: usize) -> (r: Vec<char>)
    requires
        t@ == s@,
        i <= t.len(),
    ensures
        r@ == at_byte(t@, i as int),
{
    let off = offset_of(s, t, i);
    let mut out = chars_of(" at ");
    push_all(&mut out, decimal_exec(off as u64).as_slice());
    out
}

fn scan_string_exec(t: &[char], j: usize) -> (r: Option<(Vec<char>, usize)>)
    requires
        j <= t.len(),
    ensures
        match r {
            Some((s, k)) => scan_string(t@, j as int) == Some((s@, k as int)),
            None => scan_string(t@, j as int) is None,
        },
{
    let mut lit: Vec<char> = Vec::new();
    let mut k = j;
    while k < t.len()
        invariant
            j <= k <= t.len() + 1,
            scan_string(t@, j as int) == match scan_string(t@, k as int) {
                Some((s, e)) => Some((lit@ + s, e)),
                None => None::<(Seq<char>, int)>,
            },
        decreases t.len() + 1 - k,
    {
        let c = t[k];
        if c == '"' {
            assert(lit@ + Seq::<char>::empty() =~= lit@);
            return Some((lit, k + 1));
        }
        if c == '\\' {
            if k + 1 >= t.len() {
                return None;
            }
            proof {
                if let Some((s, e)) = scan_string(t@, k + 2) {
                    assert(lit@ + (seq![t@[k + 1]] + s) =~= lit@.push(t@[k + 1]) + s);
                }
            }
            lit.push(t[k + 1]);
            k = k + 2;
        } else {
            proof {
                if let Some((s, e)) = scan_string(t@, k + 1) {
                    assert(lit@ + (seq![c] + s) =~= lit@.push(c) + s);
                }
            }
            lit.push(c);
            k = k + 1;
        }
    }
    None
}

fn ident_end_exec(t: &[char], i: usize) -> (r: usize)
    requires
        i <= t.len(),
    ensures
        r as int == ident_end(t@, i as int),
        i <= r <= t.len(),
{
    proof {
        lemma_ident_end(t@, i as int);
    }
    let mut k = i;
    while k < t.len() && (is_alphanumeric(t[k]) || t[k] == '_' || t[k] == ':' || t[k] == '-')
        invariant
            i <= k <= t.len(),
            ident_end(t@, i as int) == ident_end(t@, k as int),
        decreases t.len() - k,
    {
        k += 1;
    }
    k
}

/// The digits `t[i..]` up to the first non-digit: their end, and their value when it fits a
/// `u32`.
fn number_exec(t: &[char], i: usize) -> (r: (usize, Option<u32>))
    requires
        i < t.len(),
        is_ascii_digit(t@[i as int]),
    ensures
        r.0 as int == digit_end(t@, i + 1),
        i < r.0 <= t.len(),
        match r.1 {
            Some(v) => digits_value(t@.subrange(i as int, r.0 as int)) == v,
            None => digits_value(t@.subrange(i as int, r.0 as int)) > u32::MAX,
        },
{
    proof {
        lemma_digit_end(t@, i + 1);
    }
    let mut k = i;
    let mut v: u64 = 0;
    let mut big = false;
    assert(t@.subrange(i as int, i as int) =~= Seq::<char>::empty());
    while k < t.len() && '0' <= t[k] && t[k] <= '9'
        invariant
            i <= k <= t.len(),
            k > i ==> digit_end(t@, i + 1) == digit_end(t@, k as int),
            k == i ==> is_ascii_digit(t@[i as int]),
            forall|m: int| i <= m < k ==> is_ascii_digit(#[trigger] t@[m]),
            big ==> digits_value(t@.subrange(i as int, k as int)) > u32::MAX,
            !big ==> v == digits_value(t@.subrange(i as int, k as int)) && v <= u32::MAX,
        decreases t.len() - k,
    {
        let d = t[k];
        let dv: u64 = (d as u32 - 48) as u64;
        let ghost p = t@.subrange(i as int, k as int);
        assert(t@.subrange(i as int, k + 1) =~= p.push(d));
        assert(t@.subrange(i as int, k + 1).drop_last() =~= p);
        if !big {
            let nv = v * 10 + dv;
            if nv > 4294967295 {
                big = true;
            } else {
                v = nv;
            }
        }
        k += 1;
    }
    if big {
        (k, None)
    } else {
        (k, Some(v as u32))
    }
}

/// The token that starts at the non-blank character `i`, and where the next one may start.
fn lex_one(s: &str, t: &[char], i: usize) -> (r: Result<(Token, usize), Vec<char>>)
    requires
        t@ == s@,
        i < t.len(),
        !is_ws(t@[i as int]),
    ensures
        match r {
            Ok((tok, n)) => i < n <= t.len() && lex_from(t@, i as int) == cons_tok(
                tok@,
                lex_from(t@, n as int),
            ),
            Err(m) => lex_from(t@, i as int) == Err::<Seq<TokenV>, Seq<char>>(m@),
        },
{
    let c = t[i];
    if c == '(' {
        Ok((Token::LParen, i + 1))
    } else if c == ')' {
        Ok((Token::RParen, i + 1))
    } else if c == '{' {
        Ok((Token::LBrace, i + 1))
    } else if c == '}' {
        Ok((Token::RBrace, i + 1))
    } else if c == '"' {
        match scan_string_exec(t, i + 1) {
            None => {
                let mut m = chars_of("unclosed string starting");
                push_all(&mut m, at_byte_exec(s, t, i).as_slice());
                Err(m)
            },
            Some((lit, k)) => {
                proof {
                    lemma_scan_string(t@, i + 1);
                }
                Ok((Token::StringLit(lit), k))
            },
        }
    } else if c == '<' {
        let k = next_char_exec(t, i + 1, '>');
        if k >= t.len() {
            let mut m = chars_of("unclosed IRI starting");
            push_all(&mut m, at_byte_exec(s, t, i).as_slice());
            return Err(m);
        }
        proof {
            lemma_next_char_bounds(t@, i + 1, '>');
        }
        Ok((Token::Iri(slice_chars(t, i + 1, k)), k + 1))
    } else if '0' <= c && c <= '9' {
        let (d, v) = number_exec(t, i);
        match v {
            None => {
                let mut m = chars_of("invalid number");
                push_all(&mut m, at_byte_exec(s, t, i).as_slice());
                Err(m)
            },
            Some(n) => Ok((Token::Number(n), d)),
        }
    } else if is_alphabetic(c) || c == '_' || c == ':' {
        let e = ident_end_exec(t, i + 1);
        let w = slice_chars(t, i, e);
        let tok = match keyword_exec(w.as_slice()) {
            Some(k) => Token::Keyword(k),
            None => Token::Ident(w),
        };
        Ok((tok, e))
    } else {
        let mut m = chars_of("unexpected character '");
        m.push(c);
        push_str(&mut m, "'");
        push_all(&mut m, at_byte_exec(s, t, i).as_slice());
        proof {
            assert(m@ =~= "unexpected character '"@ + seq![c] + "'"@ + at_byte(t@, i as int));
        }
        Err(m)
    }
}

/// Tokens of the (trimmed) expression text `s`, ending with `Eof`, or the error message.
pub fn tokenize(s: &str) -> (r: Result<Vec<Token>, Vec<char>>)
    ensures
        match r {
            Ok(v) => lex_from(s@, 0) == Ok::<Seq<TokenV>, Seq<char>>(toks_v(v@)),
            Err(m) => lex_from(s@, 0) == Err::<Seq<TokenV>, Seq<char>>(m@),
        },
{
    let t = chars_of(s);
    let mut out: Vec<Token> = Vec::new();
    let mut i: usize = 0;
    assert(toks_v(out@) =~= Seq::<TokenV>::empty());
    proof {
        let r = lex_from(t@, 0);
        if let Ok(x) = r {
            assert(Seq::<TokenV>::empty() + x =~= x);
        }
    }
    while i < t.len()
        invariant
            t@ == s@,
            i <= t.len(),
            lex_from(t@, 0) == prepend_toks(toks_v(out@), lex_from(t@, i as int)),
        decreases t.len() - i,
    {
        if ws(t[i]) {
            i += 1;
        } else {
            match lex_one(s, t.as_slice(), i) {
                Err(m) => {
                    return Err(m);
                },
                Ok((tok, next)) => {
                    let ghost before = toks_v(out@);
                    out.push(tok);
                    assert(toks_v(out@) =~= before.push(tok@));
                    proof {
                        let r = lex_from(t@, next as int);
                        if let Ok(x) = r {
                            assert(before + (seq![tok@] + x) =~= before.push(tok@) + x);
                        }
                    }
                    i = next;
                },
            }
        }
    }
    let ghost before = toks_v(out@);
    out.push(Token::Eof);
    assert(toks_v(out@) =~= before.push(TokenV::Eof));
    assert(before + seq![TokenV::Eof] =~= before.push(TokenV::Eof));
    Ok(out)
}

} // verus!
