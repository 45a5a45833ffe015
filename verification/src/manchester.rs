//! Manchester-syntax class expressions: parsing into class expressions over full IRIs, and
//! the normalized text written back.
use vstd::prelude::*;
use crate::drange::{data_range_chars, data_range_of};
use crate::error::{err_of, make_err, ErrKind, OwlError};
use crate::mconv::{ast_to_class_expression, conv};
use crate::mexpr::{texts_of, ClassExpression, DataRange, ExprV};
use crate::mlex::{lex_from, tokenize};
use crate::mman::{ce_man, ce_man_exec};
use crate::mtree::{expression_tree_json, tree_json};
use crate::mparse::{parse_token_list, parse_tokens};
use crate::namespaces::Namespaces;
use crate::text::{chars_of, string_from, trim, trim_exec};

verus! {

/// A message about a span of an expression.
#[derive(Debug, Clone)]
pub struct ManchesterDiagnostic {
    pub message: String,
    pub offset: usize,
    pub length: usize,
}

/// A parsed class expression with its normalized Manchester text and its tree as JSON text.
#[derive(Debug)]
pub struct ManchesterParseOutput {
    pub normalized: String,
    pub expression: ClassExpression,
    pub tree: String,
    pub diagnostics: Vec<ManchesterDiagnostic>,
}

/// The class expression written as `input`, or the error detail: the trimmed text is
/// tokenized, parsed, and its names resolved (`known` lists declared datatype IRIs).
pub open spec fn parse_expression_spec(
    input: Seq<char>,
    ns: Seq<(Seq<char>, Seq<char>)>,
    known: Seq<Seq<char>>,
) -> Result<ExprV, Seq<char>> {
    let t = trim(input);
    if t.len() == 0 {
        Err("empty expression"@)
    } else {
        match lex_from(t, 0) {
            Err(m) => Err(m),
            Ok(toks) => match parse_tokens(toks) {
                Err(m) => Err(m),
                Ok(a) => conv(a, ns, known),
            },
        }
    }
}

/// The expression of `chars` with the declared datatypes `known`, or the error detail.
pub fn parse_expression_chars(input: &[char], ns: &Namespaces, known: &Vec<Vec<char>>) -> (r: Result<
    ClassExpression,
    Vec<char>,
>)
    ensures
        match r {
            Ok(e) => parse_expression_spec(input@, ns@, texts_of(known@)) == Ok::<ExprV, Seq<char>>(
                e@,
            ),
            Err(m) => parse_expression_spec(input@, ns@, texts_of(known@)) == Err::<
                ExprV,
                Seq<char>,
            >(m@),
        },
{
    let t = trim_exec(input);
    if t.len() == 0 {
        return Err(chars_of("empty expression"));
    }
    let s = string_from(t.as_slice());
    let toks = match tokenize(s.as_str()) {
        Err(m) => {
            return Err(m);
        },
        Ok(x) => x,
    };
    let ast = match parse_token_list(&toks) {
        Err(m) => {
            return Err(m);
        },
        Ok(a) => a,
    };
    ast_to_class_expression(&ast, ns, known)
}

/// `parse_class_expression_with_datatypes`: the expression, its normalized text, and no
/// diagnostics; every failure is an invalid-expression error carrying the detail.
pub fn parse_class_expression_with_datatypes(
    input: &str,
    ns: &Namespaces,
    known: &Vec<Vec<char>>,
) -> (r: Result<ManchesterParseOutput, OwlError>)
    ensures
        match parse_expression_spec(input@, ns@, texts_of(known@)) {
            Ok(e) => r matches Ok(out) && out.expression@ == e && out.normalized@ == ce_man(e, ns@)
                && out.tree@ == tree_json(e, ns@) && out.diagnostics@.len() == 0,
            Err(d) => r matches Err(x) && err_of(x) == (ErrKind::ManchesterInvalid, d),
        },
{
    let chars = chars_of(input);
    match parse_expression_chars(chars.as_slice(), ns, known) {
        Err(m) => Err(make_err(ErrKind::ManchesterInvalid, m.as_slice())),
        Ok(e) => {
            let normalized = string_from(ce_man_exec(&e, ns).as_slice());
            let tree = expression_tree_json(&e, ns);
            Ok(ManchesterParseOutput { normalized, expression: e, tree, diagnostics: Vec::new() })
        },
    }
}

/// `parse_class_expression`: as with declared datatypes, with none declared.
pub fn parse_class_expression(input: &str, ns: &Namespaces) -> (r: Result<
    ManchesterParseOutput,
    OwlError,
>)
    ensures
        match parse_expression_spec(input@, ns@, Seq::empty()) {
            Ok(e) => r matches Ok(out) && out.expression@ == e && out.normalized@ == ce_man(e, ns@)
                && out.tree@ == tree_json(e, ns@) && out.diagnostics@.len() == 0,
            Err(d) => r matches Err(x) && err_of(x) == (ErrKind::ManchesterInvalid, d),
        },
{
    let known: Vec<Vec<char>> = Vec::new();
    assert(texts_of(known@) =~= Seq::<Seq<char>>::empty());
    parse_class_expression_with_datatypes(input, ns, &known)
}

/// `parse_data_range`: the data range written as `input` (trimmed), or an invalid-expression
/// error carrying the detail.
pub fn parse_data_range(input: &str, ns: &Namespaces) -> (r: Result<DataRange, OwlError>)
    ensures
        match data_range_of(trim(input@), ns@) {
            Ok(d) => r matches Ok(x) && x@ == d,
            Err(m) => r matches Err(x) && err_of(x) == (ErrKind::ManchesterInvalid, m),
        },
{
    let chars = chars_of(input);
    let t = trim_exec(chars.as_slice());
    match data_range_chars(t.as_slice(), ns) {
        Ok(d) => Ok(d),
        Err(m) => Err(make_err(ErrKind::ManchesterInvalid, m.as_slice())),
    }
}

} // verus!
