//! From the syntax tree of a class expression to the class expression over full IRIs.
use vstd::prelude::*;
use crate::drange::{data_range_chars, data_range_of};
use crate::mexpr::{
    exprs_v, lemma_exprs_push, looks_like_datatype, looks_like_datatype_iri, resolve_term,
    resolve_term_iri, texts_of, ClassExpression, DataRange, ExprV, RangeV,
};
use crate::mparse::{asts_v, lemma_asts_index, texts, Ast, AstV};
use crate::namespaces::Namespaces;
use crate::text::{lemma_next_char_bounds, next_char, next_char_exec, slice_chars, trim, trim_exec};

verus! {

/// The part of a filler term before any `[`, trimmed: the datatype name it would start with.
pub open spec fn base_of(term: Seq<char>) -> Seq<char> {
    trim(term.subrange(0, next_char(term, 0, '[')))
}

/// How a restriction filler reads as a data range: `Some` when it is a name that looks like a
/// datatype (then the whole term must parse as a data range), `None` when it is a class.
pub open spec fn filler_range(
    filler: AstV,
    ns: Seq<(Seq<char>, Seq<char>)>,
    known: Seq<Seq<char>>,
) -> Result<Option<RangeV>, Seq<char>> {
    match filler {
        AstV::Class(term) => {
            let base = base_of(term);
            match resolve_term(base, ns) {
                Err(e) => Err(e),
                Ok(iri) => if !looks_like_datatype(iri, base, known) {
                    Ok(None)
                } else {
                    match data_range_of(trim(term), ns) {
                        Err(e) => Err(e),
                        Ok(d) => Ok(Some(d)),
                    }
                },
            }
        },
        _ => Ok(None),
    }
}

/// Names resolved in order, `names[i..]`; the first failure is the error.
pub open spec fn resolve_from(
    names: Seq<Seq<char>>,
    i: int,
    ns: Seq<(Seq<char>, Seq<char>)>,
) -> Result<Seq<Seq<char>>, Seq<char>>
    decreases names.len() - i,
{
    if i < 0 || i >= names.len() {
        Ok(Seq::empty())
    } else {
        match resolve_term(names[i], ns) {
            Err(e) => Err(e),
            Ok(x) => match resolve_from(names, i + 1, ns) {
                Err(e) => Err(e),
                Ok(rest) => Ok(seq![x] + rest),
            },
        }
    }
}

/// The kinds of restriction on a property.
#[derive(Debug, Clone, Copy, PartialEq, Eq, Structural)]
pub enum RestrictionKind {
    Exists,
    Forall,
    Min(u32),
    Max(u32),
    Exactly(u32),
}

/// A restriction of kind `k` over a data range.
pub open spec fn data_restriction(k: RestrictionKind, dp: Seq<char>, dr: RangeV) -> ExprV {
    match k {
        RestrictionKind::Exists => ExprV::DataSomeValuesFrom { dp, dr },
        RestrictionKind::Forall => ExprV::DataAllValuesFrom { dp, dr },
        RestrictionKind::Min(n) => ExprV::DataMinCardinality { n, dp, dr },
        RestrictionKind::Max(n) => ExprV::DataMaxCardinality { n, dp, dr },
        RestrictionKind::Exactly(n) => ExprV::DataExactCardinality { n, dp, dr },
    }
}

/// A restriction of kind `k` over a class.
pub open spec fn object_restriction(k: RestrictionKind, ope: Seq<char>, b: ExprV) -> ExprV {
    match k {
        RestrictionKind::Exists => ExprV::ObjectSomeValuesFrom { ope, bce: Box::new(b) },
        RestrictionKind::Forall => ExprV::ObjectAllValuesFrom { ope, bce: Box::new(b) },
        RestrictionKind::Min(n) => ExprV::ObjectMinCardinality { n, ope, bce: Box::new(b) },
        RestrictionKind::Max(n) => ExprV::ObjectMaxCardinality { n, ope, bce: Box::new(b) },
        RestrictionKind::Exactly(n) => ExprV::ObjectExactCardinality { n, ope, bce: Box::new(b) },
    }
}

/// A restriction of kind `k` on property `prop` with filler `filler`: over a data range when
/// the filler reads as one, else over the converted filler class `conv_filler`.
pub open spec fn restriction(
    k: RestrictionKind,
    prop: Seq<char>,
    filler: AstV,
    ns: Seq<(Seq<char>, Seq<char>)>,
    known: Seq<Seq<char>>,
    conv_filler: Result<ExprV, Seq<char>>,
) -> Result<ExprV, Seq<char>> {
    match filler_range(filler, ns, known) {
        Err(e) => Err(e),
        Ok(Some(dr)) => Ok(data_restriction(k, prop, dr)),
        Ok(None) => match conv_filler {
            Err(e) => Err(e),
            Ok(b) => Ok(object_restriction(k, prop, b)),
        },
    }
}

/// A restriction of kind `k` on the written property `property`.
pub open spec fn conv_restriction(
    k: RestrictionKind,
    property: Seq<char>,
    filler: AstV,
    ns: Seq<(Seq<char>, Seq<char>)>,
    known: Seq<Seq<char>>,
    conv_filler: Result<ExprV, Seq<char>>,
) -> Result<ExprV, Seq<char>> {
    match resolve_term(property, ns) {
        Err(e) => Err(e),
        Ok(p) => restriction(k, p, filler, ns, known, conv_filler),
    }
}

/// `ast_to_class_expression`: the class expression of a syntax tree, resolving every name
/// through the namespaces.
pub open spec fn conv(a: AstV, ns: Seq<(Seq<char>, Seq<char>)>, known: Seq<Seq<char>>) -> Result<
    ExprV,
    Seq<char>,
>
    decreases a, 0int,
{
    match a {
        AstV::Class(t) => match resolve_term(t, ns) {
            Err(e) => Err(e),
            Ok(iri) => Ok(ExprV::Class(iri)),
        },
        AstV::Exists { property, filler } => conv_restriction(
            RestrictionKind::Exists,
            property,
            *filler,
            ns,
            known,
            conv(*filler, ns, known),
        ),
        AstV::Forall { property, filler } => conv_restriction(
            RestrictionKind::Forall,
            property,
            *filler,
            ns,
            known,
            conv(*filler, ns, known),
        ),
        AstV::And(items) => match conv_from(items, 0, ns, known) {
            Err(e) => Err(e),
            Ok(v) => Ok(ExprV::ObjectIntersectionOf(v)),
        },
        AstV::Or(items) => match conv_from(items, 0, ns, known) {
            Err(e) => Err(e),
            Ok(v) => Ok(ExprV::ObjectUnionOf(v)),
        },
        AstV::Min { n, property, filler } => conv_restriction(
            RestrictionKind::Min(n),
            property,
            *filler,
            ns,
            known,
            conv(*filler, ns, known),
        ),
        AstV::Max { n, property, filler } => conv_restriction(
            RestrictionKind::Max(n),
            property,
            *filler,
            ns,
            known,
            conv(*filler, ns, known),
        ),
        AstV::Exactly { n, property, filler } => conv_restriction(
            RestrictionKind::Exactly(n),
            property,
            *filler,
            ns,
            known,
            conv(*filler, ns, known),
        ),
        AstV::Not(inner) => match conv(*inner, ns, known) {
            Err(e) => Err(e),
            Ok(c) => Ok(ExprV::ObjectComplementOf(Box::new(c))),
        },
        AstV::HasValue { property, individual } => match resolve_term(property, ns) {
            Err(e) => Err(e),
            Ok(p) => match resolve_term(individual, ns) {
                Err(e) => Err(e),
                Ok(i) => Ok(ExprV::ObjectHasValue { ope: p, i }),
            },
        },
        AstV::HasSelf { property } => match resolve_term(property, ns) {
            Err(e) => Err(e),
            Ok(p) => Ok(ExprV::ObjectHasSelf(p)),
        },
        AstV::OneOf(inds) => match resolve_from(inds, 0, ns) {
            Err(e) => Err(e),
            Ok(v) => Ok(ExprV::ObjectOneOf(v)),
        },
        AstV::DataHasValue { property, literal } => match resolve_term(property, ns) {
            Err(e) => Err(e),
            Ok(p) => Ok(ExprV::DataHasValue { dp: p, l: literal }),
        },
    }
}

/// The conversions of `items[i..]` in order; the first failure is the error.
pub open spec fn conv_from(
    items: Seq<AstV>,
    i: int,
    ns: Seq<(Seq<char>, Seq<char>)>,
    known: Seq<Seq<char>>,
) -> Result<Seq<ExprV>, Seq<char>>
    decreases items, items.len() - i,
{
    if i < 0 || i >= items.len() {
        Ok(Seq::empty())
    } else {
        match conv(items[i], ns, known) {
            Err(e) => Err(e),
            Ok(x) => match conv_from(items, i + 1, ns, known) {
                Err(e) => Err(e),
                Ok(rest) => Ok(seq![x] + rest),
            },
        }
    }
}

/// `filler_as_data_range`: the data range a restriction filler reads as, if any.
fn filler_as_data_range(filler: &Ast, ns: &Namespaces, known: &Vec<Vec<char>>) -> (r: Result<
    Option<DataRange>,
    Vec<char>,
>)
    ensures
        match r {
            Ok(Some(d)) => filler_range(filler@, ns@, texts_of(known@)) == Ok::<
                Option<RangeV>,
                Seq<char>,
            >(Some(d@)),
            Ok(None) => filler_range(filler@, ns@, texts_of(known@)) == Ok::<
                Option<RangeV>,
                Seq<char>,
            >(None),
            Err(m) => filler_range(filler@, ns@, texts_of(known@)) == Err::<
                Option<RangeV>,
                Seq<char>,
            >(m@),
        },
{
    match filler {
        Ast::Class(term) => {
            let c = next_char_exec(term.as_slice(), 0, '[');
            proof {
                lemma_next_char_bounds(term@, 0, '[');
            }
            let head = slice_chars(term.as_slice(), 0, c);
            let base = trim_exec(head.as_slice());
            let iri = match resolve_term_iri(base.as_slice(), ns) {
                Err(e) => {
                    return Err(e);
                },
                Ok(x) => x,
            };
            if !looks_like_datatype_iri(iri.as_slice(), base.as_slice(), known) {
                return Ok(None);
            }
            let whole = trim_exec(term.as_slice());
            match data_range_chars(whole.as_slice(), ns) {
                Err(e) => Err(e),
                Ok(d) => Ok(Some(d)),
            }
        },
        _ => Ok(None),
    }
}

fn data_node(k: RestrictionKind, dp: Vec<char>, dr: DataRange) -> (r: ClassExpression)
    ensures
        r@ == data_restriction(k, dp@, dr@),
{
    match k {
        RestrictionKind::Exists => ClassExpression::DataSomeValuesFrom { dp, dr },
        RestrictionKind::Forall => ClassExpression::DataAllValuesFrom { dp, dr },
        RestrictionKind::Min(n) => ClassExpression::DataMinCardinality { n, dp, dr },
        RestrictionKind::Max(n) => ClassExpression::DataMaxCardinality { n, dp, dr },
        RestrictionKind::Exactly(n) => ClassExpression::DataExactCardinality { n, dp, dr },
    }
}

fn object_node(k: RestrictionKind, ope: Vec<char>, b: ClassExpression) -> (r: ClassExpression)
    ensures
        r@ == object_restriction(k, ope@, b@),
{
    match k {
        RestrictionKind::Exists => ClassExpression::ObjectSomeValuesFrom { ope, bce: Box::new(b) },
        RestrictionKind::Forall => ClassExpression::ObjectAllValuesFrom { ope, bce: Box::new(b) },
        RestrictionKind::Min(n) => ClassExpression::ObjectMinCardinality {
            n,
            ope,
            bce: Box::new(b),
        },
        RestrictionKind::Max(n) => ClassExpression::ObjectMaxCardinality {
            n,
            ope,
            bce: Box::new(b),
        },
        RestrictionKind::Exactly(n) => ClassExpression::ObjectExactCardinality {
            n,
            ope,
            bce: Box::new(b),
        },
    }
}

/// Result of a conversion as mathematical values.
pub open spec fn cr(r: Result<ClassExpression, Vec<char>>) -> Result<ExprV, Seq<char>> {
    match r {
        Ok(e) => Ok(e@),
        Err(m) => Err(m@),
    }
}

fn restriction_exec(
    k: RestrictionKind,
    property: &Vec<char>,
    filler: &Ast,
    ns: &Namespaces,
    known: &Vec<Vec<char>>,
) -> (r: Result<ClassExpression, Vec<char>>)
    ensures
        cr(r) == conv_restriction(
            k,
            property@,
            filler@,
            ns@,
            texts_of(known@),
            conv(filler@, ns@, texts_of(known@)),
        ),
    decreases filler, 3int,
{
    let p = match resolve_term_iri(property.as_slice(), ns) {
        Err(e) => {
            return Err(e);
        },
        Ok(x) => x,
    };
    match filler_as_data_range(filler, ns, known) {
        Err(e) => Err(e),
        Ok(Some(dr)) => Ok(data_node(k, p, dr)),
        Ok(None) => match ast_to_class_expression(filler, ns, known) {
            Err(e) => Err(e),
            Ok(b) => Ok(object_node(k, p, b)),
        },
    }
}

fn resolve_all(names: &Vec<Vec<char>>, ns: &Namespaces) -> (r: Result<Vec<Vec<char>>, Vec<char>>)
    ensures
        match r {
            Ok(v) => resolve_from(texts_of(names@), 0, ns@) == Ok::<Seq<Seq<char>>, Seq<char>>(
                texts_of(v@),
            ),
            Err(m) => resolve_from(texts_of(names@), 0, ns@) == Err::<Seq<Seq<char>>, Seq<char>>(
                m@,
            ),
        },
{
    let ghost ts = texts_of(names@);
    let mut out: Vec<Vec<char>> = Vec::new();
    let mut i: usize = 0;
    assert(texts_of(out@) =~= Seq::<Seq<char>>::empty());
    proof {
        if let Ok(x) = resolve_from(ts, 0, ns@) {
            assert(Seq::<Seq<char>>::empty() + x =~= x);
        }
    }
    while i < names.len()
        invariant
            ts == texts_of(names@),
            0 <= i <= names.len(),
            resolve_from(ts, 0, ns@) == match resolve_from(ts, i as int, ns@) {
                Ok(rest) => Ok(texts_of(out@) + rest),
                Err(e) => Err::<Seq<Seq<char>>, Seq<char>>(e),
            },
        decreases names.len() - i,
    {
        let x = match resolve_term_iri(names[i].as_slice(), ns) {
            Err(e) => {
                return Err(e);
            },
            Ok(x) => x,
        };
        let ghost before = texts_of(out@);
        out.push(x);
        assert(texts_of(out@) =~= before.push(x@));
        proof {
            if let Ok(rest) = resolve_from(ts, i + 1, ns@) {
                assert(before + (seq![x@] + rest) =~= before.push(x@) + rest);
            }
        }
        i += 1;
    }
    assert(texts_of(out@) + Seq::<Seq<char>>::empty() =~= texts_of(out@));
    Ok(out)
}

fn conv_list(items: &Vec<Ast>, ns: &Namespaces, known: &Vec<Vec<char>>, Ghost(parent): Ghost<Ast>) -> (r: Result<Vec<ClassExpression>, Vec<char>>)
    requires
        decreases_to!(parent => items),
    ensures
        match r {
            Ok(v) => conv_from(asts_v(items@), 0, ns@, texts_of(known@)) == Ok::<Seq<ExprV>, Seq<char>>(
                exprs_v(v@),
            ),
            Err(m) => conv_from(asts_v(items@), 0, ns@, texts_of(known@)) == Err::<
                Seq<ExprV>,
                Seq<char>,
            >(m@),
        },
    decreases parent, 1int,
{
    let ghost s = asts_v(items@);
    let ghost kn = texts_of(known@);
    proof {
        lemma_asts_index(items@);
    }
    let mut out: Vec<ClassExpression> = Vec::new();
    let mut i: usize = 0;
    assert(exprs_v(out@) =~= Seq::<ExprV>::empty());
    proof {
        if let Ok(x) = conv_from(s, 0, ns@, kn) {
            assert(Seq::<ExprV>::empty() + x =~= x);
        }
    }
    while i < items.len()
        invariant
            s == asts_v(items@),
            kn == texts_of(known@),
            s.len() == items.len(),
            forall|j: int| 0 <= j < items.len() ==> #[trigger] s[j] == ast_v_of(items@[j]),
            decreases_to!(parent => items),
            0 <= i <= items.len(),
            conv_from(s, 0, ns@, kn) == match conv_from(s, i as int, ns@, kn) {
                Ok(rest) => Ok(exprs_v(out@) + rest),
                Err(e) => Err::<Seq<ExprV>, Seq<char>>(e),
            },
        decreases items.len() - i,
    {
        proof {
            assert(decreases_to!(items => items[i as int]));
        }
        let x = match ast_to_class_expression(&items[i], ns, known) {
            Err(e) => {
                return Err(e);
            },
            Ok(x) => x,
        };
        let ghost before = exprs_v(out@);
        proof {
            lemma_exprs_push(out@, x);
        }
        out.push(x);
        proof {
            if let Ok(rest) = conv_from(s, i + 1, ns@, kn) {
                assert(before + (seq![x@] + rest) =~= before.push(x@) + rest);
            }
        }
        i += 1;
    }
    assert(exprs_v(out@) + Seq::<ExprV>::empty() =~= exprs_v(out@));
    Ok(out)
}

/// The syntax tree's view (for use in quantifier triggers).
pub open spec fn ast_v_of(a: Ast) -> AstV {
    a@
}

fn copy_chars(v: &Vec<char>) -> (r: Vec<char>)
    ensures
        r@ == v@,
{
    let r = slice_chars(v.as_slice(), 0, v.len());
    assert(r@ =~= v@);
    r
}

/// Conversion of the trees without subexpressions.
fn conv_leaf(ast: &Ast, ns: &Namespaces, Ghost(known): Ghost<Seq<Seq<char>>>) -> (r: Result<ClassExpression, Vec<char>>)
    requires
        ast is Class || ast is HasValue || ast is HasSelf || ast is OneOf || ast is DataHasValue,
    ensures
        cr(r) == conv(ast@, ns@, known),
{
    match ast {
        Ast::Class(t) => match resolve_term_iri(t.as_slice(), ns) {
            Err(e) => Err(e),
            Ok(iri) => Ok(ClassExpression::Class(iri)),
        },
        Ast::HasValue { property, individual } => {
            let p = match resolve_term_iri(property.as_slice(), ns) {
                Err(e) => {
                    return Err(e);
                },
                Ok(x) => x,
            };
            match resolve_term_iri(individual.as_slice(), ns) {
                Err(e) => Err(e),
                Ok(i) => Ok(ClassExpression::ObjectHasValue { ope: p, i }),
            }
        },
        Ast::HasSelf { property } => match resolve_term_iri(property.as_slice(), ns) {
            Err(e) => Err(e),
            Ok(p) => Ok(ClassExpression::ObjectHasSelf(p)),
        },
        Ast::OneOf(inds) => {
            assert(texts(inds@) =~= texts_of(inds@));
            match resolve_all(inds, ns) {
                Err(e) => Err(e),
                Ok(v) => Ok(ClassExpression::ObjectOneOf(v)),
            }
        },
        Ast::DataHasValue { property, literal } => match resolve_term_iri(property.as_slice(), ns) {
            Err(e) => Err(e),
            Ok(p) => Ok(ClassExpression::DataHasValue { dp: p, l: copy_chars(literal) }),
        },
        _ => Err(Vec::new()),
    }
}

/// Conversion of the restrictions on a property.
fn conv_restriction_arm(ast: &Ast, ns: &Namespaces, known: &Vec<Vec<char>>) -> (r: Result<
    ClassExpression,
    Vec<char>,
>)
    requires
        ast is Exists || ast is Forall || ast is Min || ast is Max || ast is Exactly,
    ensures
        cr(r) == conv(ast@, ns@, texts_of(known@)),
    decreases ast, 1int,
{
    match ast {
        Ast::Exists { property, filler } => restriction_exec(
            RestrictionKind::Exists,
            property,
            filler,
            ns,
            known,
        ),
        Ast::Forall { property, filler } => restriction_exec(
            RestrictionKind::Forall,
            property,
            filler,
            ns,
            known,
        ),
        Ast::Min { n, property, filler } => restriction_exec(
            RestrictionKind::Min(*n),
            property,
            filler,
            ns,
            known,
        ),
        Ast::Max { n, property, filler } => restriction_exec(
            RestrictionKind::Max(*n),
            property,
            filler,
            ns,
            known,
        ),
        Ast::Exactly { n, property, filler } => restriction_exec(
            RestrictionKind::Exactly(*n),
            property,
            filler,
            ns,
            known,
        ),
        _ => Err(Vec::new()),
    }
}

/// `ast_to_class_expression`: the class expression of a syntax tree, every name resolved
/// through the namespaces; `known` lists the IRIs of declared datatypes.
pub fn ast_to_class_expression(ast: &Ast, ns: &Namespaces, known: &Vec<Vec<char>>) -> (r: Result<
    ClassExpression,
    Vec<char>,
>)
    ensures
        cr(r) == conv(ast@, ns@, texts_of(known@)),
    decreases ast, 2int,
{
    match ast {
        Ast::And(items) => match conv_list(items, ns, known, Ghost(*ast)) {
            Err(e) => Err(e),
            Ok(v) => Ok(ClassExpression::ObjectIntersectionOf(v)),
        },
        Ast::Or(items) => match conv_list(items, ns, known, Ghost(*ast)) {
            Err(e) => Err(e),
            Ok(v) => Ok(ClassExpression::ObjectUnionOf(v)),
        },
        Ast::Not(inner) => match ast_to_class_expression(inner, ns, known) {
            Err(e) => Err(e),
            Ok(c) => Ok(ClassExpression::ObjectComplementOf(Box::new(c))),
        },
        Ast::Class(_) | Ast::HasValue { .. } | Ast::HasSelf { .. } | Ast::OneOf(_)
        | Ast::DataHasValue { .. } => conv_leaf(ast, ns, Ghost(texts_of(known@))),
        _ => conv_restriction_arm(ast, ns, known),
    }
}

/// The keyword a syntax tree of a property restriction was written with.
pub open spec fn ast_keyword(a: AstV) -> Option<crate::mlex::Keyword> {
    match a {
        AstV::Exists { .. } => Some(crate::mlex::Keyword::SomeKw),
        AstV::Forall { .. } => Some(crate::mlex::Keyword::Only),
        AstV::Min { .. } => Some(crate::mlex::Keyword::Min),
        AstV::Max { .. } => Some(crate::mlex::Keyword::Max),
        AstV::Exactly { .. } => Some(crate::mlex::Keyword::Exactly),
        AstV::HasValue { .. } => Some(crate::mlex::Keyword::Value),
        AstV::HasSelf { .. } => Some(crate::mlex::Keyword::SelfKw),
        AstV::DataHasValue { .. } => Some(crate::mlex::Keyword::Value),
        _ => None,
    }
}

/// The property written in a syntax tree of a property restriction.
pub open spec fn ast_property(a: AstV) -> Seq<char> {
    match a {
        AstV::Exists { property, .. } => property,
        AstV::Forall { property, .. } => property,
        AstV::Min { property, .. } => property,
        AstV::Max { property, .. } => property,
        AstV::Exactly { property, .. } => property,
        AstV::HasValue { property, .. } => property,
        AstV::HasSelf { property } => property,
        AstV::DataHasValue { property, .. } => property,
        _ => Seq::empty(),
    }
}

/// Law: converting a syntax tree keeps its kind. A restriction written with a keyword becomes
/// a class expression that is written back with that same keyword on the resolved property
/// (`restriction_keyword`, the table the Manchester renderer is held to), and `and`, `or` and
/// `not` trees become intersections, unions and complements.
#[verifier::spinoff_prover]
#[verifier::rlimit(50)]
pub proof fn law_conversion_keeps_kind(a: AstV, ns: Seq<(Seq<char>, Seq<char>)>, known: Seq<Seq<char>>)
    ensures
        ast_keyword(a) is Some && conv(a, ns, known) is Ok ==> crate::mman::restriction_keyword(
            conv(a, ns, known)->Ok_0,
        ) == Some((resolve_term(ast_property(a), ns)->Ok_0, ast_keyword(a)->Some_0)),
        a is And && conv(a, ns, known) is Ok ==> conv(a, ns, known)->Ok_0 is ObjectIntersectionOf,
        a is Or && conv(a, ns, known) is Ok ==> conv(a, ns, known)->Ok_0 is ObjectUnionOf,
        a is Not && conv(a, ns, known) is Ok ==> conv(a, ns, known)->Ok_0 is ObjectComplementOf,
{
    match a {
        AstV::Exists { property, filler } => {
            let r = filler_range(*filler, ns, known);
        },
        AstV::Forall { property, filler } => {
            let r = filler_range(*filler, ns, known);
        },
        AstV::Min { n, property, filler } => {
            let r = filler_range(*filler, ns, known);
        },
        AstV::Max { n, property, filler } => {
            let r = filler_range(*filler, ns, known);
        },
        AstV::Exactly { n, property, filler } => {
            let r = filler_range(*filler, ns, known);
        },
        _ => {},
    }
}

} // verus!
