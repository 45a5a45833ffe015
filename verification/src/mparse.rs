//! Recursive-descent parser from tokens to the syntax tree of a Manchester class expression.
use vstd::prelude::*;
use crate::iri::{bracketed, owl_thing};
use crate::mlex::{copy_token, token_debug, token_debug_exec, toks_v, Keyword, Token, TokenV};
use crate::text::{chars_of, push_all};

verus! {

/// Syntax tree of a class expression, with names as written.
#[derive(Debug)]
pub enum Ast {
    Class(Vec<char>),
    Exists { property: Vec<char>, filler: Box<Ast> },
    Forall { property: Vec<char>, filler: Box<Ast> },
    And(Vec<Ast>),
    Or(Vec<Ast>),
    Min { n: u32, property: Vec<char>, filler: Box<Ast> },
    Max { n: u32, property: Vec<char>, filler: Box<Ast> },
    Exactly { n: u32, property: Vec<char>, filler: Box<Ast> },
    Not(Box<Ast>),
    HasValue { property: Vec<char>, individual: Vec<char> },
    HasSelf { property: Vec<char> },
    OneOf(Vec<Vec<char>>),
    DataHasValue { property: Vec<char>, literal: Vec<char> },
}

/// The syntax tree as mathematical values.
pub enum AstV {
    Class(Seq<char>),
    Exists { property: Seq<char>, filler: Box<AstV> },
    Forall { property: Seq<char>, filler: Box<AstV> },
    And(Seq<AstV>),
    Or(Seq<AstV>),
    Min { n: u32, property: Seq<char>, filler: Box<AstV> },
    Max { n: u32, property: Seq<char>, filler: Box<AstV> },
    Exactly { n: u32, property: Seq<char>, filler: Box<AstV> },
    Not(Box<AstV>),
    HasValue { property: Seq<char>, individual: Seq<char> },
    HasSelf { property: Seq<char> },
    OneOf(Seq<Seq<char>>),
    DataHasValue { property: Seq<char>, literal: Seq<char> },
}

/// Character vectors as texts.
pub open spec fn texts(v: Seq<Vec<char>>) -> Seq<Seq<char>> {
    v.map_values(|x: Vec<char>| x@)
}

pub open spec fn ast_v(a: Ast) -> AstV
    decreases a,
{
    match a {
        Ast::Class(s) => AstV::Class(s@),
        Ast::Exists { property, filler } => AstV::Exists {
            property: property@,
            filler: Box::new(ast_v(*filler)),
        },
        Ast::Forall { property, filler } => AstV::Forall {
            property: property@,
            filler: Box::new(ast_v(*filler)),
        },
        Ast::And(v) => AstV::And(asts_v(v@)),
        Ast::Or(v) => AstV::Or(asts_v(v@)),
        Ast::Min { n, property, filler } => AstV::Min {
            n,
            property: property@,
            filler: Box::new(ast_v(*filler)),
        },
        Ast::Max { n, property, filler } => AstV::Max {
            n,
            property: property@,
            filler: Box::new(ast_v(*filler)),
        },
        Ast::Exactly { n, property, filler } => AstV::Exactly {
            n,
            property: property@,
            filler: Box::new(ast_v(*filler)),
        },
        Ast::Not(inner) => AstV::Not(Box::new(ast_v(*inner))),
        Ast::HasValue { property, individual } => AstV::HasValue {
            property: property@,
            individual: individual@,
        },
        Ast::HasSelf { property } => AstV::HasSelf { property: property@ },
        Ast::OneOf(v) => AstV::OneOf(texts(v@)),
        Ast::DataHasValue { property, literal } => AstV::DataHasValue {
            property: property@,
            literal: literal@,
        },
    }
}

pub open spec fn asts_v(s: Seq<Ast>) -> Seq<AstV>
    decreases s,
{
    if s.len() == 0 {
        Seq::empty()
    } else {
        asts_v(s.subrange(0, s.len() - 1)).push(ast_v(s[s.len() - 1]))
    }
}

impl View for Ast {
    type V = AstV;

    open spec fn view(&self) -> AstV {
        ast_v(*self)
    }
}

/// The token at `p`, or `Eof` past the end.
pub open spec fn peek(toks: Seq<TokenV>, p: int) -> TokenV {
    if 0 <= p < toks.len() {
        toks[p]
    } else {
        TokenV::Eof
    }
}

/// Result of parsing from a position: the tree and the position after it, or the message.
pub type Parsed = Result<(AstV, int), Seq<char>>;

/// A name: an identifier as written, or a bracketed IRI.
pub open spec fn parse_name(toks: Seq<TokenV>, p: int) -> Result<(Seq<char>, int), Seq<char>> {
    match peek(toks, p) {
        TokenV::Ident(s) => Ok((s, p + 1)),
        TokenV::Iri(i) => Ok(("<"@ + i + ">"@, p + 1)),
        other => Err("expected name, got "@ + token_debug(other)),
    }
}

/// Tokens that may start a class term.
pub open spec fn starts_class_term(t: TokenV) -> bool {
    t is Ident || t is Iri || t is LParen || t is LBrace
}

/// Whether the parse moved forward from `p` and stayed within the tokens.
pub open spec fn moved(toks: Seq<TokenV>, p: int, q: int) -> bool {
    p < q <= toks.len()
}

/// The one part, or the `or` of the parts.
pub open spec fn or_of(parts: Seq<AstV>) -> AstV {
    if parts.len() == 1 {
        parts[0]
    } else {
        AstV::Or(parts)
    }
}

/// The one part, or the `and` of the parts.
pub open spec fn and_of(parts: Seq<AstV>) -> AstV {
    if parts.len() == 1 {
        parts[0]
    } else {
        AstV::And(parts)
    }
}

/// A cardinality restriction of the kind of keyword `k`.
pub open spec fn card_of(k: Keyword, n: u32, property: Seq<char>, filler: AstV) -> AstV {
    if k == Keyword::Min {
        AstV::Min { n, property, filler: Box::new(filler) }
    } else if k == Keyword::Max {
        AstV::Max { n, property, filler: Box::new(filler) }
    } else {
        AstV::Exactly { n, property, filler: Box::new(filler) }
    }
}

pub open spec fn is_card_kw(t: TokenV) -> bool {
    t matches TokenV::Keyword(k) && (k == Keyword::Min || k == Keyword::Max || k == Keyword::Exactly)
}

/// `or`-separated conjunctions.
pub open spec fn p_or(toks: Seq<TokenV>, p: int) -> Parsed
    decreases toks.len() - p, 8int,
{
    if p < 0 || p > toks.len() {
        Err(Seq::empty())
    } else {
        match p_and(toks, p) {
            Err(e) => Err(e),
            Ok((a, q)) => if p <= q <= toks.len() {
                or_rest(toks, q, seq![a])
            } else {
                Err(Seq::empty())
            },
        }
    }
}

pub open spec fn or_rest(toks: Seq<TokenV>, q: int, parts: Seq<AstV>) -> Parsed
    decreases toks.len() - q, 7int,
{
    if 0 <= q && peek(toks, q) == TokenV::Keyword(Keyword::Or) {
        match p_and(toks, q + 1) {
            Err(e) => Err(e),
            Ok((b, r)) => if moved(toks, q, r) {
                or_rest(toks, r, parts.push(b))
            } else {
                Err(Seq::empty())
            },
        }
    } else {
        Ok((or_of(parts), q))
    }
}

/// `and`-separated unary terms.
pub open spec fn p_and(toks: Seq<TokenV>, p: int) -> Parsed
    decreases toks.len() - p, 6int,
{
    if p < 0 || p > toks.len() {
        Err(Seq::empty())
    } else {
        match p_unary(toks, p) {
            Err(e) => Err(e),
            Ok((a, q)) => if p <= q <= toks.len() {
                and_rest(toks, q, seq![a])
            } else {
                Err(Seq::empty())
            },
        }
    }
}

pub open spec fn and_rest(toks: Seq<TokenV>, q: int, parts: Seq<AstV>) -> Parsed
    decreases toks.len() - q, 5int,
{
    if 0 <= q && peek(toks, q) == TokenV::Keyword(Keyword::And) {
        match p_unary(toks, q + 1) {
            Err(e) => Err(e),
            Ok((b, r)) => if moved(toks, q, r) {
                and_rest(toks, r, parts.push(b))
            } else {
                Err(Seq::empty())
            },
        }
    } else {
        Ok((and_of(parts), q))
    }
}

/// `not` in front of a unary term, or a primary term.
pub open spec fn p_unary(toks: Seq<TokenV>, p: int) -> Parsed
    decreases toks.len() - p, 4int,
{
    if p < 0 || p > toks.len() {
        Err(Seq::empty())
    } else if peek(toks, p) == TokenV::Keyword(Keyword::Not) {
        match p_unary(toks, p + 1) {
            Err(e) => Err(e),
            Ok((a, q)) => Ok((AstV::Not(Box::new(a)), q)),
        }
    } else {
        p_primary(toks, p)
    }
}

/// The filler of a restriction whose remaining tokens start at `q`: a primary term, or
/// `owl:Thing` when no class term follows.
pub open spec fn p_filler(toks: Seq<TokenV>, q: int) -> Parsed
    decreases toks.len() - q, 3int,
{
    if starts_class_term(peek(toks, q)) {
        p_primary(toks, q)
    } else {
        Ok((AstV::Class(owl_thing()), q))
    }
}

/// A primary term: a cardinality, a `{...}` enumeration, a parenthesised expression, a named
/// class, or a restriction on a named property.
pub open spec fn p_primary(toks: Seq<TokenV>, p: int) -> Parsed
    decreases toks.len() - p, 2int,
{
    let tk = peek(toks, p);
    if p < 0 || p > toks.len() {
        Err(Seq::empty())
    } else if is_card_kw(tk) {
        p_card(toks, p)
    } else if tk == TokenV::LBrace {
        p_one_of(toks, p)
    } else if tk == TokenV::LParen {
        match p_or(toks, p + 1) {
            Err(e) => Err(e),
            Ok((a, q)) => if peek(toks, q) == TokenV::RParen {
                Ok((a, q + 1))
            } else {
                Err("expected ')'"@)
            },
        }
    } else {
        match parse_name(toks, p) {
            Err(e) => Err(e),
            Ok((name, q)) => {
                let nx = peek(toks, q);
                if nx == TokenV::Keyword(Keyword::SelfKw) {
                    Ok((AstV::HasSelf { property: name }, q + 1))
                } else if nx == TokenV::Keyword(Keyword::Value) {
                    match peek(toks, q + 1) {
                        TokenV::StringLit(l) => Ok(
                            (AstV::DataHasValue { property: name, literal: l }, q + 2),
                        ),
                        _ => match parse_name(toks, q + 1) {
                            Err(e) => Err(e),
                            Ok((ind, q2)) => Ok(
                                (AstV::HasValue { property: name, individual: ind }, q2),
                            ),
                        },
                    }
                } else if is_card_kw(nx) {
                    match peek(toks, q + 1) {
                        TokenV::Number(n) => match p_filler(toks, q + 2) {
                            Err(e) => Err(e),
                            Ok((f, r)) => Ok((card_of(nx->Keyword_0, n, name, f), r)),
                        },
                        _ => Err("expected cardinality number"@),
                    }
                } else if nx == TokenV::Keyword(Keyword::SomeKw) || nx == TokenV::Keyword(
                    Keyword::Only,
                ) {
                    match p_primary(toks, q + 1) {
                        Err(e) => Err(e),
                        Ok((f, r)) => Ok(
                            (
                                if nx == TokenV::Keyword(Keyword::SomeKw) {
                                    AstV::Exists { property: name, filler: Box::new(f) }
                                } else {
                                    AstV::Forall { property: name, filler: Box::new(f) }
                                },
                                r,
                            ),
                        ),
                    }
                } else {
                    Ok((AstV::Class(name), q))
                }
            },
        }
    }
}

/// Keyword-first cardinality: `min n property [some] [filler]`.
pub open spec fn p_card(toks: Seq<TokenV>, p: int) -> Parsed
    decreases toks.len() - p, 1int,
{
    let kind = peek(toks, p);
    if p < 0 || p >= toks.len() || !is_card_kw(kind) {
        Err(Seq::empty())
    } else {
        match peek(toks, p + 1) {
            TokenV::Number(n) => match parse_name(toks, p + 2) {
                Err(e) => Err(e),
                Ok((prop, q)) => {
                    let filler = if peek(toks, q) == TokenV::Keyword(Keyword::SomeKw) {
                        p_primary(toks, q + 1)
                    } else {
                        p_filler(toks, q)
                    };
                    match filler {
                        Err(e) => Err(e),
                        Ok((f, r)) => Ok((card_of(kind->Keyword_0, n, prop, f), r)),
                    }
                },
            },
            _ => Err("expected cardinality number"@),
        }
    }
}

/// `{ name name ... }` starting at the `{`.
pub open spec fn p_one_of(toks: Seq<TokenV>, p: int) -> Parsed
    decreases toks.len() - p, 1int,
{
    if p < 0 || p >= toks.len() || peek(toks, p) != TokenV::LBrace {
        Err("expected '{'"@)
    } else {
        one_of_names(toks, p + 1, Seq::empty())
    }
}

pub open spec fn one_of_names(toks: Seq<TokenV>, q: int, names: Seq<Seq<char>>) -> Parsed
    decreases toks.len() - q, 0int,
{
    let tk = peek(toks, q);
    if q < 0 || q > toks.len() {
        Err(Seq::empty())
    } else if tk == TokenV::RBrace {
        if names.len() == 0 {
            Err("ObjectOneOf must contain at least one individual"@)
        } else {
            Ok((AstV::OneOf(names), q + 1))
        }
    } else if tk == TokenV::Eof {
        Err("expected '}'"@)
    } else {
        match parse_name(toks, q) {
            Err(e) => Err(e),
            Ok((nm, q1)) => one_of_names(toks, q1, names.push(nm)),
        }
    }
}

/// The tree of a whole token list: one expression followed by `Eof`.
pub open spec fn parse_tokens(toks: Seq<TokenV>) -> Result<AstV, Seq<char>> {
    match p_or(toks, 0) {
        Err(e) => Err(e),
        Ok((a, q)) => if peek(toks, q) == TokenV::Eof {
            Ok(a)
        } else {
            Err("unexpected token: "@ + token_debug(peek(toks, q)))
        },
    }
}

pub proof fn lemma_asts_push(s: Seq<Ast>, x: Ast)
    ensures
        asts_v(s.push(x)) == asts_v(s).push(ast_v(x)),
{
    assert(s.push(x).subrange(0, s.len() as int) =~= s);
}

pub proof fn lemma_asts_index(s: Seq<Ast>)
    ensures
        asts_v(s).len() == s.len(),
        forall|i: int| 0 <= i < s.len() ==> #[trigger] asts_v(s)[i] == ast_v(s[i]),
    decreases s.len(),
{
    if s.len() > 0 {
        let t = s.subrange(0, s.len() - 1);
        lemma_asts_index(t);
        assert forall|i: int| 0 <= i < s.len() implies #[trigger] asts_v(s)[i] == ast_v(s[i]) by {
            if i < s.len() - 1 {
                assert(t[i] == s[i]);
            }
        }
    }
}

/// A parse result as mathematical values.
pub open spec fn pr(r: Result<(Ast, usize), Vec<char>>) -> Parsed {
    match r {
        Ok((a, q)) => Ok((a@, q as int)),
        Err(m) => Err(m@),
    }
}

/// A successful parse ends between `p` and `n`.
pub open spec fn within(r: Result<(Ast, usize), Vec<char>>, p: int, n: int) -> bool {
    r matches Ok((_a, q)) ==> p < q <= n
}

fn peek_exec(toks: &Vec<Token>, p: usize) -> (r: Token)
    ensures
        r@ == peek(toks_v(toks@), p as int),
{
    if p < toks.len() {
        copy_token(&toks[p])
    } else {
        Token::Eof
    }
}

fn kw_at(toks: &Vec<Token>, p: usize, k: Keyword) -> (r: bool)
    ensures
        r == (peek(toks_v(toks@), p as int) == TokenV::Keyword(k)),
{
    if p < toks.len() {
        match &toks[p] {
            Token::Keyword(x) => *x == k,
            _ => false,
        }
    } else {
        false
    }
}

fn card_kw_at(toks: &Vec<Token>, p: usize) -> (r: Option<Keyword>)
    ensures
        r is Some <==> is_card_kw(peek(toks_v(toks@), p as int)),
        r matches Some(k) ==> peek(toks_v(toks@), p as int) == TokenV::Keyword(k),
{
    if p < toks.len() {
        match &toks[p] {
            Token::Keyword(x) => if *x == Keyword::Min || *x == Keyword::Max || *x
                == Keyword::Exactly {
                Some(*x)
            } else {
                None
            },
            _ => None,
        }
    } else {
        None
    }
}

fn parse_name_exec(toks: &Vec<Token>, p: usize) -> (r: Result<(Vec<char>, usize), Vec<char>>)
    ensures
        match r {
            Ok((s, q)) => parse_name(toks_v(toks@), p as int) == Ok::<(Seq<char>, int), Seq<char>>(
                (s@, q as int),
            ) && q == p + 1 && p < toks.len(),
            Err(m) => parse_name(toks_v(toks@), p as int) == Err::<(Seq<char>, int), Seq<char>>(
                m@,
            ),
        },
{
    let t = peek_exec(toks, p);
    proof {
        if p >= toks.len() {
            assert(t@ == TokenV::Eof);
        }
    }
    match t {
        Token::Ident(s) => Ok((s, p + 1)),
        Token::Iri(i) => Ok((bracketed(i.as_slice()), p + 1)),
        other => {
            let mut m = chars_of("expected name, got ");
            push_all(&mut m, token_debug_exec(&other).as_slice());
            Err(m)
        },
    }
}

fn card_node(k: Keyword, n: u32, property: Vec<char>, filler: Ast) -> (r: Ast)
    ensures
        r@ == card_of(k, n, property@, filler@),
{
    if k == Keyword::Min {
        Ast::Min { n, property, filler: Box::new(filler) }
    } else if k == Keyword::Max {
        Ast::Max { n, property, filler: Box::new(filler) }
    } else {
        Ast::Exactly { n, property, filler: Box::new(filler) }
    }
}

fn parse_or_exec(toks: &Vec<Token>, p: usize) -> (r: Result<(Ast, usize), Vec<char>>)
    requires
        p <= toks.len(),
    ensures
        pr(r) == p_or(toks_v(toks@), p as int),
        within(r, p as int, toks.len() as int),
    decreases toks.len() - p, 8int,
{
    let ghost tv = toks_v(toks@);
    let (a, q0) = match parse_and_exec(toks, p) {
        Err(e) => {
            return Err(e);
        },
        Ok(x) => x,
    };
    let mut parts: Vec<Ast> = Vec::new();
    parts.push(a);
    let mut q = q0;
    proof {
        lemma_asts_push(Seq::empty(), a);
        assert(Seq::<Ast>::empty().push(a) =~= parts@);
        assert(asts_v(Seq::empty()) =~= Seq::<AstV>::empty());
        assert(Seq::<AstV>::empty().push(a@) =~= seq![a@]);
    }
    while kw_at(toks, q, Keyword::Or)
        invariant
            tv == toks_v(toks@),
            p < q <= toks.len(),
            parts.len() >= 1,
            p_or(tv, p as int) == or_rest(tv, q as int, asts_v(parts@)),
        decreases toks.len() - q,
    {
        let ghost before = parts@;
        let (b, r) = match parse_and_exec(toks, q + 1) {
            Err(e) => {
                return Err(e);
            },
            Ok(x) => x,
        };
        parts.push(b);
        proof {
            lemma_asts_push(before, b);
        }
        q = r;
    }
    proof {
        lemma_asts_index(parts@);
    }
    if parts.len() == 1 {
        let a = parts.pop().unwrap();
        Ok((a, q))
    } else {
        Ok((Ast::Or(parts), q))
    }
}

fn parse_and_exec(toks: &Vec<Token>, p: usize) -> (r: Result<(Ast, usize), Vec<char>>)
    requires
        p <= toks.len(),
    ensures
        pr(r) == p_and(toks_v(toks@), p as int),
        within(r, p as int, toks.len() as int),
    decreases toks.len() - p, 6int,
{
    let ghost tv = toks_v(toks@);
    let (a, q0) = match parse_unary_exec(toks, p) {
        Err(e) => {
            return Err(e);
        },
        Ok(x) => x,
    };
    let mut parts: Vec<Ast> = Vec::new();
    parts.push(a);
    let mut q = q0;
    proof {
        lemma_asts_push(Seq::empty(), a);
        assert(Seq::<Ast>::empty().push(a) =~= parts@);
        assert(asts_v(Seq::empty()) =~= Seq::<AstV>::empty());
        assert(Seq::<AstV>::empty().push(a@) =~= seq![a@]);
    }
    while kw_at(toks, q, Keyword::And)
        invariant
            tv == toks_v(toks@),
            p < q <= toks.len(),
            parts.len() >= 1,
            p_and(tv, p as int) == and_rest(tv, q as int, asts_v(parts@)),
        decreases toks.len() - q,
    {
        let ghost before = parts@;
        let (b, r) = match parse_unary_exec(toks, q + 1) {
            Err(e) => {
                return Err(e);
            },
            Ok(x) => x,
        };
        parts.push(b);
        proof {
            lemma_asts_push(before, b);
        }
        q = r;
    }
    proof {
        lemma_asts_index(parts@);
    }
    if parts.len() == 1 {
        let a = parts.pop().unwrap();
        Ok((a, q))
    } else {
        Ok((Ast::And(parts), q))
    }
}

fn parse_unary_exec(toks: &Vec<Token>, p: usize) -> (r: Result<(Ast, usize), Vec<char>>)
    requires
        p <= toks.len(),
    ensures
        pr(r) == p_unary(toks_v(toks@), p as int),
        within(r, p as int, toks.len() as int),
    decreases toks.len() - p, 4int,
{
    if kw_at(toks, p, Keyword::Not) {
        match parse_unary_exec(toks, p + 1) {
            Err(e) => Err(e),
            Ok((a, q)) => Ok((Ast::Not(Box::new(a)), q)),
        }
    } else {
        parse_primary_exec(toks, p)
    }
}

fn parse_filler_exec(toks: &Vec<Token>, q: usize) -> (r: Result<(Ast, usize), Vec<char>>)
    requires
        q <= toks.len(),
    ensures
        pr(r) == p_filler(toks_v(toks@), q as int),
        r matches Ok((_a, e)) ==> q <= e <= toks.len(),
    decreases toks.len() - q, 3int,
{
    let t = peek_exec(toks, q);
    if matches!(t, Token::Ident(_)) || matches!(t, Token::Iri(_)) || matches!(t, Token::LParen)
        || matches!(t, Token::LBrace) {
        parse_primary_exec(toks, q)
    } else {
        Ok((Ast::Class(chars_of("http://www.w3.org/2002/07/owl#Thing")), q))
    }
}

fn parse_primary_exec(toks: &Vec<Token>, p: usize) -> (r: Result<(Ast, usize), Vec<char>>)
    requires
        p <= toks.len(),
    ensures
        pr(r) == p_primary(toks_v(toks@), p as int),
        within(r, p as int, toks.len() as int),
    decreases toks.len() - p, 2int,
{
    let ghost tv = toks_v(toks@);
    if card_kw_at(toks, p).is_some() {
        return parse_card_exec(toks, p);
    }
    let t = peek_exec(toks, p);
    if matches!(t, Token::LBrace) {
        return parse_one_of_exec(toks, p);
    }
    if matches!(t, Token::LParen) {
        let (a, q) = match parse_or_exec(toks, p + 1) {
            Err(e) => {
                return Err(e);
            },
            Ok(x) => x,
        };
        let c = peek_exec(toks, q);
        if matches!(c, Token::RParen) {
            return Ok((a, q + 1));
        }
        return Err(chars_of("expected ')'"));
    }
    let (name, q) = match parse_name_exec(toks, p) {
        Err(e) => {
            return Err(e);
        },
        Ok(x) => x,
    };
    if kw_at(toks, q, Keyword::SelfKw) {
        return Ok((Ast::HasSelf { property: name }, q + 1));
    }
    if kw_at(toks, q, Keyword::Value) {
        let v = peek_exec(toks, q + 1);
        match v {
            Token::StringLit(l) => {
                return Ok((Ast::DataHasValue { property: name, literal: l }, q + 2));
            },
            _ => {
                let (ind, q2) = match parse_name_exec(toks, q + 1) {
                    Err(e) => {
                        return Err(e);
                    },
                    Ok(x) => x,
                };
                return Ok((Ast::HasValue { property: name, individual: ind }, q2));
            },
        }
    }
    match card_kw_at(toks, q) {
        Some(k) => {
            let nt = peek_exec(toks, q + 1);
            match nt {
                Token::Number(n) => {
                    let (f, r) = match parse_filler_exec(toks, q + 2) {
                        Err(e) => {
                            return Err(e);
                        },
                        Ok(x) => x,
                    };
                    return Ok((card_node(k, n, name, f), r));
                },
                _ => {
                    return Err(chars_of("expected cardinality number"));
                },
            }
        },
        None => {},
    }
    let some = kw_at(toks, q, Keyword::SomeKw);
    if some || kw_at(toks, q, Keyword::Only) {
        let (f, r) = match parse_primary_exec(toks, q + 1) {
            Err(e) => {
                return Err(e);
            },
            Ok(x) => x,
        };
        if some {
            return Ok((Ast::Exists { property: name, filler: Box::new(f) }, r));
        } else {
            return Ok((Ast::Forall { property: name, filler: Box::new(f) }, r));
        }
    }
    Ok((Ast::Class(name), q))
}

fn parse_card_exec(toks: &Vec<Token>, p: usize) -> (r: Result<(Ast, usize), Vec<char>>)
    requires
        p <= toks.len(),
        is_card_kw(peek(toks_v(toks@), p as int)),
    ensures
        pr(r) == p_card(toks_v(toks@), p as int),
        within(r, p as int, toks.len() as int),
    decreases toks.len() - p, 1int,
{
    let k = card_kw_at(toks, p).unwrap();
    let nt = peek_exec(toks, p + 1);
    let n = match nt {
        Token::Number(n) => n,
        _ => {
            return Err(chars_of("expected cardinality number"));
        },
    };
    let (prop, q) = match parse_name_exec(toks, p + 2) {
        Err(e) => {
            return Err(e);
        },
        Ok(x) => x,
    };
    let filler = if kw_at(toks, q, Keyword::SomeKw) {
        parse_primary_exec(toks, q + 1)
    } else {
        parse_filler_exec(toks, q)
    };
    match filler {
        Err(e) => Err(e),
        Ok((f, r)) => Ok((card_node(k, n, prop, f), r)),
    }
}

fn parse_one_of_exec(toks: &Vec<Token>, p: usize) -> (r: Result<(Ast, usize), Vec<char>>)
    requires
        p < toks.len(),
        peek(toks_v(toks@), p as int) == TokenV::LBrace,
    ensures
        pr(r) == p_one_of(toks_v(toks@), p as int),
        within(r, p as int, toks.len() as int),
    decreases toks.len() - p, 1int,
{
    let ghost tv = toks_v(toks@);
    let mut names: Vec<Vec<char>> = Vec::new();
    let mut q = p + 1;
    assert(texts(names@) =~= Seq::<Seq<char>>::empty());
    loop
        invariant
            tv == toks_v(toks@),
            p < q <= toks.len(),
            p_one_of(tv, p as int) == one_of_names(tv, q as int, texts(names@)),
        decreases toks.len() - q,
    {
        let t = peek_exec(toks, q);
        if matches!(t, Token::RBrace) {
            if names.len() == 0 {
                return Err(chars_of("ObjectOneOf must contain at least one individual"));
            }
            return Ok((Ast::OneOf(names), q + 1));
        }
        if matches!(t, Token::Eof) {
            return Err(chars_of("expected '}'"));
        }
        let (nm, q1) = match parse_name_exec(toks, q) {
            Err(e) => {
                return Err(e);
            },
            Ok(x) => x,
        };
        let ghost before = names@;
        names.push(nm);
        assert(texts(names@) =~= texts(before).push(nm@));
        q = q1;
    }
}

/// The syntax tree of a whole token list (`ManchesterParser::parse_expression` followed by the
/// end-of-input check).
pub fn parse_token_list(toks: &Vec<Token>) -> (r: Result<Ast, Vec<char>>)
    ensures
        match r {
            Ok(a) => parse_tokens(toks_v(toks@)) == Ok::<AstV, Seq<char>>(a@),
            Err(m) => parse_tokens(toks_v(toks@)) == Err::<AstV, Seq<char>>(m@),
        },
{
    let (a, q) = match parse_or_exec(toks, 0) {
        Err(e) => {
            return Err(e);
        },
        Ok(x) => x,
    };
    let t = peek_exec(toks, q);
    if matches!(t, Token::Eof) {
        Ok(a)
    } else {
        let mut m = chars_of("unexpected token: ");
        push_all(&mut m, token_debug_exec(&t).as_slice());
        Err(m)
    }
}

/// Law: the tokens `p only c` are read as the universal restriction of property `p` to the
/// class `c`, and `p some c` as the existential one, for any names `p` and `c` (identifiers or
/// bracketed IRIs).
pub proof fn law_parse_restriction_keywords(p: TokenV, c: TokenV)
    requires
        p is Ident || p is Iri,
        c is Ident || c is Iri,
    ensures
        parse_tokens(seq![p, TokenV::Keyword(Keyword::Only), c]) == Ok::<AstV, Seq<char>>(
            AstV::Forall {
                property: parse_name(seq![p], 0)->Ok_0.0,
                filler: Box::new(AstV::Class(parse_name(seq![c], 0)->Ok_0.0)),
            },
        ),
        parse_tokens(seq![p, TokenV::Keyword(Keyword::SomeKw), c]) == Ok::<AstV, Seq<char>>(
            AstV::Exists {
                property: parse_name(seq![p], 0)->Ok_0.0,
                filler: Box::new(AstV::Class(parse_name(seq![c], 0)->Ok_0.0)),
            },
        ),
{
    lemma_restriction_tokens(p, c, Keyword::Only);
    lemma_restriction_tokens(p, c, Keyword::SomeKw);
}

proof fn lemma_restriction_tokens(p: TokenV, c: TokenV, k: Keyword)
    requires
        p is Ident || p is Iri,
        c is Ident || c is Iri,
        k == Keyword::Only || k == Keyword::SomeKw,
    ensures
        parse_tokens(seq![p, TokenV::Keyword(k), c]) == Ok::<AstV, Seq<char>>(
            if k == Keyword::SomeKw {
                AstV::Exists {
                    property: parse_name(seq![p], 0)->Ok_0.0,
                    filler: Box::new(AstV::Class(parse_name(seq![c], 0)->Ok_0.0)),
                }
            } else {
                AstV::Forall {
                    property: parse_name(seq![p], 0)->Ok_0.0,
                    filler: Box::new(AstV::Class(parse_name(seq![c], 0)->Ok_0.0)),
                }
            },
        ),
{
    let toks = seq![p, TokenV::Keyword(k), c];
    let pn = parse_name(seq![p], 0)->Ok_0.0;
    let cn = parse_name(seq![c], 0)->Ok_0.0;
    assert(peek(toks, 0) == p);
    assert(peek(toks, 1) == TokenV::Keyword(k));
    assert(peek(toks, 2) == c);
    assert(peek(toks, 3) == TokenV::Eof);
    assert(parse_name(toks, 0) == Ok::<(Seq<char>, int), Seq<char>>((pn, 1)));
    assert(parse_name(toks, 2) == Ok::<(Seq<char>, int), Seq<char>>((cn, 3)));
    assert(!is_card_kw(c));
    assert(p_primary(toks, 2) == Ok::<(AstV, int), Seq<char>>((AstV::Class(cn), 3)));
    let a = if k == Keyword::SomeKw {
        AstV::Exists { property: pn, filler: Box::new(AstV::Class(cn)) }
    } else {
        AstV::Forall { property: pn, filler: Box::new(AstV::Class(cn)) }
    };
    assert(!is_card_kw(p));
    assert(!is_card_kw(TokenV::Keyword(k)));
    assert(p_primary(toks, 0) == Ok::<(AstV, int), Seq<char>>((a, 3)));
    assert(p_unary(toks, 0) == Ok::<(AstV, int), Seq<char>>((a, 3)));
    assert(and_rest(toks, 3, seq![a]) == Ok::<(AstV, int), Seq<char>>((a, 3)));
    assert(p_and(toks, 0) == Ok::<(AstV, int), Seq<char>>((a, 3)));
    assert(or_rest(toks, 3, seq![a]) == Ok::<(AstV, int), Seq<char>>((a, 3)));
    assert(p_or(toks, 0) == Ok::<(AstV, int), Seq<char>>((a, 3)));
}

/// The name a name token stands for (an identifier as written, a bracketed IRI).
pub open spec fn name_of(t: TokenV) -> Seq<char> {
    parse_name(seq![t], 0)->Ok_0.0
}

pub open spec fn is_name_token(t: TokenV) -> bool {
    t is Ident || t is Iri
}

/// Law: `p min n c`, `p max n c` and `p exactly n c` are read as the cardinality restriction of
/// that kind with bound `n`, and `p value i` and `p Self` as the value and self restrictions,
/// for any names `p`, `c`, `i`.
#[verifier::spinoff_prover]
#[verifier::rlimit(50)]
pub proof fn law_parse_property_restrictions(p: TokenV, c: TokenV, k: Keyword, n: u32)
    requires
        is_name_token(p),
        is_name_token(c),
        k == Keyword::Min || k == Keyword::Max || k == Keyword::Exactly,
    ensures
        parse_tokens(seq![p, TokenV::Keyword(k), TokenV::Number(n), c]) == Ok::<AstV, Seq<char>>(
            if k == Keyword::Min {
                AstV::Min { n, property: name_of(p), filler: Box::new(AstV::Class(name_of(c))) }
            } else if k == Keyword::Max {
                AstV::Max { n, property: name_of(p), filler: Box::new(AstV::Class(name_of(c))) }
            } else {
                AstV::Exactly { n, property: name_of(p), filler: Box::new(AstV::Class(name_of(c))) }
            },
        ),
        parse_tokens(seq![p, TokenV::Keyword(Keyword::Value), c]) == Ok::<AstV, Seq<char>>(
            AstV::HasValue { property: name_of(p), individual: name_of(c) },
        ),
        parse_tokens(seq![p, TokenV::Keyword(Keyword::SelfKw)]) == Ok::<AstV, Seq<char>>(
            AstV::HasSelf { property: name_of(p) },
        ),
{
    let pn = name_of(p);
    let cn = name_of(c);
    // cardinality
    let t1 = seq![p, TokenV::Keyword(k), TokenV::Number(n), c];
    assert(peek(t1, 0) == p && peek(t1, 1) == TokenV::Keyword(k) && peek(t1, 2) == TokenV::Number(n));
    assert(peek(t1, 3) == c && peek(t1, 4) == TokenV::Eof);
    assert(parse_name(t1, 0) == Ok::<(Seq<char>, int), Seq<char>>((pn, 1)));
    assert(parse_name(t1, 3) == Ok::<(Seq<char>, int), Seq<char>>((cn, 4)));
    assert(!is_card_kw(c) && !is_card_kw(p));
    assert(p_primary(t1, 3) == Ok::<(AstV, int), Seq<char>>((AstV::Class(cn), 4)));
    assert(p_filler(t1, 3) == Ok::<(AstV, int), Seq<char>>((AstV::Class(cn), 4)));
    let a1 = card_of(k, n, pn, AstV::Class(cn));
    assert(p_primary(t1, 0) == Ok::<(AstV, int), Seq<char>>((a1, 4)));
    assert(p_unary(t1, 0) == Ok::<(AstV, int), Seq<char>>((a1, 4)));
    assert(and_rest(t1, 4, seq![a1]) == Ok::<(AstV, int), Seq<char>>((a1, 4)));
    assert(p_and(t1, 0) == Ok::<(AstV, int), Seq<char>>((a1, 4)));
    assert(or_rest(t1, 4, seq![a1]) == Ok::<(AstV, int), Seq<char>>((a1, 4)));
    assert(p_or(t1, 0) == Ok::<(AstV, int), Seq<char>>((a1, 4)));
    // value
    let t2 = seq![p, TokenV::Keyword(Keyword::Value), c];
    assert(peek(t2, 0) == p && peek(t2, 1) == TokenV::Keyword(Keyword::Value) && peek(t2, 2) == c);
    assert(peek(t2, 3) == TokenV::Eof);
    assert(parse_name(t2, 0) == Ok::<(Seq<char>, int), Seq<char>>((pn, 1)));
    assert(parse_name(t2, 2) == Ok::<(Seq<char>, int), Seq<char>>((cn, 3)));
    let a2 = AstV::HasValue { property: pn, individual: cn };
    assert(p_primary(t2, 0) == Ok::<(AstV, int), Seq<char>>((a2, 3)));
    assert(p_unary(t2, 0) == Ok::<(AstV, int), Seq<char>>((a2, 3)));
    assert(and_rest(t2, 3, seq![a2]) == Ok::<(AstV, int), Seq<char>>((a2, 3)));
    assert(p_and(t2, 0) == Ok::<(AstV, int), Seq<char>>((a2, 3)));
    assert(or_rest(t2, 3, seq![a2]) == Ok::<(AstV, int), Seq<char>>((a2, 3)));
    assert(p_or(t2, 0) == Ok::<(AstV, int), Seq<char>>((a2, 3)));
    // self
    let t3 = seq![p, TokenV::Keyword(Keyword::SelfKw)];
    assert(peek(t3, 0) == p && peek(t3, 1) == TokenV::Keyword(Keyword::SelfKw) && peek(t3, 2) == TokenV::Eof);
    assert(parse_name(t3, 0) == Ok::<(Seq<char>, int), Seq<char>>((pn, 1)));
    let a3 = AstV::HasSelf { property: pn };
    assert(p_primary(t3, 0) == Ok::<(AstV, int), Seq<char>>((a3, 2)));
    assert(p_unary(t3, 0) == Ok::<(AstV, int), Seq<char>>((a3, 2)));
    assert(and_rest(t3, 2, seq![a3]) == Ok::<(AstV, int), Seq<char>>((a3, 2)));
    assert(p_and(t3, 0) == Ok::<(AstV, int), Seq<char>>((a3, 2)));
    assert(or_rest(t3, 2, seq![a3]) == Ok::<(AstV, int), Seq<char>>((a3, 2)));
    assert(p_or(t3, 0) == Ok::<(AstV, int), Seq<char>>((a3, 2)));
}

/// Law: `a and b` is read as the intersection of the classes `a` and `b`, `a or b` as their
/// union, and `not a` as the complement of `a`, for any names `a` and `b`.
#[verifier::spinoff_prover]
#[verifier::rlimit(50)]
pub proof fn law_parse_boolean_keywords(a: TokenV, b: TokenV)
    requires
        is_name_token(a),
        is_name_token(b),
    ensures
        parse_tokens(seq![a, TokenV::Keyword(Keyword::And), b]) == Ok::<AstV, Seq<char>>(
            AstV::And(seq![AstV::Class(name_of(a)), AstV::Class(name_of(b))]),
        ),
        parse_tokens(seq![a, TokenV::Keyword(Keyword::Or), b]) == Ok::<AstV, Seq<char>>(
            AstV::Or(seq![AstV::Class(name_of(a)), AstV::Class(name_of(b))]),
        ),
        parse_tokens(seq![TokenV::Keyword(Keyword::Not), a]) == Ok::<AstV, Seq<char>>(
            AstV::Not(Box::new(AstV::Class(name_of(a)))),
        ),
{
    let an = name_of(a);
    let bn = name_of(b);
    let ca = AstV::Class(an);
    let cb = AstV::Class(bn);
    assert(!is_card_kw(a) && !is_card_kw(b));
    // and
    let t1 = seq![a, TokenV::Keyword(Keyword::And), b];
    assert(peek(t1, 0) == a && peek(t1, 1) == TokenV::Keyword(Keyword::And) && peek(t1, 2) == b);
    assert(peek(t1, 3) == TokenV::Eof);
    assert(parse_name(t1, 0) == Ok::<(Seq<char>, int), Seq<char>>((an, 1)));
    assert(parse_name(t1, 2) == Ok::<(Seq<char>, int), Seq<char>>((bn, 3)));
    assert(p_primary(t1, 0) == Ok::<(AstV, int), Seq<char>>((ca, 1)));
    assert(p_unary(t1, 0) == Ok::<(AstV, int), Seq<char>>((ca, 1)));
    assert(p_primary(t1, 2) == Ok::<(AstV, int), Seq<char>>((cb, 3)));
    assert(p_unary(t1, 2) == Ok::<(AstV, int), Seq<char>>((cb, 3)));
    let both = seq![ca, cb];
    assert(seq![ca].push(cb) =~= both);
    assert(and_rest(t1, 3, both) == Ok::<(AstV, int), Seq<char>>((AstV::And(both), 3)));
    assert(and_rest(t1, 1, seq![ca]) == Ok::<(AstV, int), Seq<char>>((AstV::And(both), 3)));
    assert(p_and(t1, 0) == Ok::<(AstV, int), Seq<char>>((AstV::And(both), 3)));
    assert(or_rest(t1, 3, seq![AstV::And(both)]) == Ok::<(AstV, int), Seq<char>>((AstV::And(both), 3)));
    assert(p_or(t1, 0) == Ok::<(AstV, int), Seq<char>>((AstV::And(both), 3)));
    // or
    let t2 = seq![a, TokenV::Keyword(Keyword::Or), b];
    assert(peek(t2, 0) == a && peek(t2, 1) == TokenV::Keyword(Keyword::Or) && peek(t2, 2) == b);
    assert(peek(t2, 3) == TokenV::Eof);
    assert(parse_name(t2, 0) == Ok::<(Seq<char>, int), Seq<char>>((an, 1)));
    assert(parse_name(t2, 2) == Ok::<(Seq<char>, int), Seq<char>>((bn, 3)));
    assert(p_primary(t2, 0) == Ok::<(AstV, int), Seq<char>>((ca, 1)));
    assert(p_unary(t2, 0) == Ok::<(AstV, int), Seq<char>>((ca, 1)));
    assert(and_rest(t2, 1, seq![ca]) == Ok::<(AstV, int), Seq<char>>((ca, 1)));
    assert(p_and(t2, 0) == Ok::<(AstV, int), Seq<char>>((ca, 1)));
    assert(p_primary(t2, 2) == Ok::<(AstV, int), Seq<char>>((cb, 3)));
    assert(p_unary(t2, 2) == Ok::<(AstV, int), Seq<char>>((cb, 3)));
    assert(and_rest(t2, 3, seq![cb]) == Ok::<(AstV, int), Seq<char>>((cb, 3)));
    assert(p_and(t2, 2) == Ok::<(AstV, int), Seq<char>>((cb, 3)));
    assert(or_rest(t2, 3, both) == Ok::<(AstV, int), Seq<char>>((AstV::Or(both), 3)));
    assert(or_rest(t2, 1, seq![ca]) == Ok::<(AstV, int), Seq<char>>((AstV::Or(both), 3)));
    assert(p_or(t2, 0) == Ok::<(AstV, int), Seq<char>>((AstV::Or(both), 3)));
    // not
    let t3 = seq![TokenV::Keyword(Keyword::Not), a];
    assert(peek(t3, 0) == TokenV::Keyword(Keyword::Not) && peek(t3, 1) == a && peek(t3, 2) == TokenV::Eof);
    assert(parse_name(t3, 1) == Ok::<(Seq<char>, int), Seq<char>>((an, 2)));
    assert(p_primary(t3, 1) == Ok::<(AstV, int), Seq<char>>((ca, 2)));
    assert(p_unary(t3, 1) == Ok::<(AstV, int), Seq<char>>((ca, 2)));
    let na = AstV::Not(Box::new(ca));
    assert(p_unary(t3, 0) == Ok::<(AstV, int), Seq<char>>((na, 2)));
    assert(and_rest(t3, 2, seq![na]) == Ok::<(AstV, int), Seq<char>>((na, 2)));
    assert(p_and(t3, 0) == Ok::<(AstV, int), Seq<char>>((na, 2)));
    assert(or_rest(t3, 2, seq![na]) == Ok::<(AstV, int), Seq<char>>((na, 2)));
    assert(p_or(t3, 0) == Ok::<(AstV, int), Seq<char>>((na, 2)));
}

} // verus!
