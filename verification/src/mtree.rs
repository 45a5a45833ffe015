//! The tree of a class expression as compact JSON text: one object per node, its keys in
//! sorted order, names shown as in Manchester syntax.
use vstd::prelude::*;
use crate::iri::{debug_rendering, debug_text};
use crate::mexpr::{
    exprs_v, expr_v, facets_v, lemma_exprs_index, lemma_ranges_index, range_v, ranges_v, texts_of,
    ClassExpression, DataRange, ExprV, Facet, RangeV,
};
use crate::mman::{dr_man_exec, dr_man, man_term, man_term_exec};
use crate::namespaces::Namespaces;
use crate::text::{chars_of, decimal, decimal_exec, push_all, push_str, string_from};

verus! {

/// Hexadecimal digit `n` (lower case).
pub open spec fn hex_digit(n: u32) -> char {
    "0123456789abcdef"@[n as int]
}

/// A character as it stands inside a JSON string.
pub open spec fn json_escape_char(c: char) -> Seq<char> {
    if c == '"' {
        "\\\""@
    } else if c == '\\' {
        "\\\\"@
    } else if c == '\u{8}' {
        "\\b"@
    } else if c == '\u{c}' {
        "\\f"@
    } else if c == '\n' {
        "\\n"@
    } else if c == '\r' {
        "\\r"@
    } else if c == '\t' {
        "\\t"@
    } else if (c as u32) < 0x20 {
        "\\u00"@ + seq![hex_digit((c as u32) / 16), hex_digit((c as u32) % 16)]
    } else {
        seq![c]
    }
}

/// The characters of `s` as they stand inside a JSON string.
pub open spec fn json_escape(s: Seq<char>) -> Seq<char>
    decreases s.len(),
{
    if s.len() == 0 {
        Seq::empty()
    } else {
        json_escape(s.drop_last()) + json_escape_char(s.last())
    }
}

/// `s` as a JSON string.
pub open spec fn json_string(s: Seq<char>) -> Seq<char> {
    "\""@ + json_escape(s) + "\""@
}

/// A JSON member `"key":value`.
pub open spec fn member(key: Seq<char>, value: Seq<char>) -> Seq<char> {
    json_string(key) + ":"@ + value
}

/// A JSON object of the given members, in order.
pub open spec fn object(members: Seq<Seq<char>>) -> Seq<char> {
    "{"@ + join_with(members, members.len() as int) + "}"@
}

/// The first `k` pieces separated by commas.
pub open spec fn join_with(v: Seq<Seq<char>>, k: int) -> Seq<char>
    decreases k,
{
    if k <= 0 || k > v.len() {
        Seq::empty()
    } else if k == 1 {
        v[0]
    } else {
        join_with(v, k - 1) + ","@ + v[k - 1]
    }
}

/// The node of a kind of its own.
pub open spec fn kind_member(kind: Seq<char>) -> Seq<char> {
    member("kind"@, json_string(kind))
}

/// `{:?}` of an IRI of the expression: `IRI("…")`, the text in Rust's debug rendering.
pub open spec fn iri_debug(s: Seq<char>) -> Seq<char> {
    "IRI("@ + debug_rendering(s) + ")"@
}

/// `{:?}` of a facet: its name.
pub open spec fn facet_debug(f: Facet) -> Seq<char> {
    match f {
        Facet::MinInclusive => "MinInclusive"@,
        Facet::MaxInclusive => "MaxInclusive"@,
        Facet::MinExclusive => "MinExclusive"@,
        Facet::MaxExclusive => "MaxExclusive"@,
        Facet::Length => "Length"@,
        Facet::MinLength => "MinLength"@,
        Facet::MaxLength => "MaxLength"@,
        Facet::Pattern => "Pattern"@,
        Facet::TotalDigits => "TotalDigits"@,
        Facet::FractionDigits => "FractionDigits"@,
    }
}

/// `{:?}` of a lexical form held as a simple literal: `Simple { literal: "…" }`.
pub open spec fn literal_debug(l: Seq<char>) -> Seq<char> {
    "Simple { literal: "@ + debug_rendering(l) + " }"@
}

/// The first `k` facet restrictions in `{:?}` form, separated by `, `.
pub open spec fn facets_debug(fs: Seq<(Facet, Seq<char>)>, k: int) -> Seq<char>
    decreases k,
{
    if k <= 0 || k > fs.len() {
        Seq::empty()
    } else {
        let one = "FacetRestriction { f: "@ + facet_debug(fs[k - 1].0) + ", l: "@ + literal_debug(fs[k - 1].1)
            + " }"@;
        if k == 1 {
            one
        } else {
            facets_debug(fs, k - 1) + ", "@ + one
        }
    }
}

/// The first `k` literals in `{:?}` form, separated by `, `.
pub open spec fn literals_debug(ls: Seq<Seq<char>>, k: int) -> Seq<char>
    decreases k,
{
    if k <= 0 || k > ls.len() {
        Seq::empty()
    } else if k == 1 {
        literal_debug(ls[0])
    } else {
        literals_debug(ls, k - 1) + ", "@ + literal_debug(ls[k - 1])
    }
}

/// `{:?}` of a data range, as its derived `Debug` writes it (one line).
pub open spec fn dr_debug(r: RangeV) -> Seq<char>
    decreases r, 0int,
{
    match r {
        RangeV::Datatype(d) => "Datatype(Datatype("@ + iri_debug(d) + "))"@,
        RangeV::DatatypeRestriction(d, fs) => "DatatypeRestriction(Datatype("@ + iri_debug(d) + "), ["@
            + facets_debug(fs, fs.len() as int) + "])"@,
        RangeV::DataOneOf(ls) => "DataOneOf(["@ + literals_debug(ls, ls.len() as int) + "])"@,
        RangeV::DataComplementOf(b) => "DataComplementOf("@ + dr_debug(*b) + ")"@,
        RangeV::DataIntersectionOf(ps) => "DataIntersectionOf(["@ + dr_debug_join(ps, ps.len() as int) + "])"@,
        RangeV::DataUnionOf(ps) => "DataUnionOf(["@ + dr_debug_join(ps, ps.len() as int) + "])"@,
    }
}

/// The first `k` data ranges in `{:?}` form, separated by `, `.
pub open spec fn dr_debug_join(ps: Seq<RangeV>, k: int) -> Seq<char>
    decreases ps, k,
{
    if k <= 0 || k > ps.len() {
        Seq::empty()
    } else if k == 1 {
        dr_debug(ps[0])
    } else {
        dr_debug_join(ps, k - 1) + ", "@ + dr_debug(ps[k - 1])
    }
}

/// `{:?}` of a data cardinality restriction of kind `kind`:
/// `kind { n: …, dp: DataProperty(IRI("…")), dr: … }`.
pub open spec fn data_card_debug(kind: Seq<char>, n: u32, dp: Seq<char>, dr: RangeV) -> Seq<char> {
    kind + " { n: "@ + decimal(n as nat) + ", dp: DataProperty("@ + iri_debug(dp) + "), dr: "@ + dr_debug(dr)
        + " }"@
}

/// `expression_tree_json`: the tree of a class expression. Each node has its `kind`; the
/// other members hold the shown names (`label`, `property`, `individual`, `individuals`),
/// sub-trees (`filler`, `children`), the `cardinality`, a data `range` in Manchester text, or
/// a `literal`. A data cardinality has only its kind, which holds the whole restriction in
/// `{:?}` form (`data_card_debug`).
pub open spec fn tree_json(e: ExprV, ns: Seq<(Seq<char>, Seq<char>)>) -> Seq<char>
    decreases e, 0int,
{
    match e {
        ExprV::Class(c) => object(seq![kind_member("Class"@), member("label"@, json_string(man_term(c, ns)))]),
        ExprV::ObjectIntersectionOf(v) => object(
            seq![member("children"@, "["@ + trees_join(v, v.len() as int, ns) + "]"@), kind_member("ObjectIntersectionOf"@)],
        ),
        ExprV::ObjectUnionOf(v) => object(
            seq![member("children"@, "["@ + trees_join(v, v.len() as int, ns) + "]"@), kind_member("ObjectUnionOf"@)],
        ),
        ExprV::ObjectSomeValuesFrom { ope, bce } => object(
            seq![
                member("filler"@, tree_json(*bce, ns)),
                kind_member("ObjectSomeValuesFrom"@),
                member("property"@, json_string(man_term(ope, ns))),
            ],
        ),
        ExprV::ObjectAllValuesFrom { ope, bce } => object(
            seq![
                member("filler"@, tree_json(*bce, ns)),
                kind_member("ObjectAllValuesFrom"@),
                member("property"@, json_string(man_term(ope, ns))),
            ],
        ),
        ExprV::ObjectMinCardinality { n, ope, bce } => object(
            seq![
                member("cardinality"@, decimal(n as nat)),
                member("filler"@, tree_json(*bce, ns)),
                kind_member("ObjectMinCardinality"@),
                member("property"@, json_string(man_term(ope, ns))),
            ],
        ),
        ExprV::ObjectMaxCardinality { n, ope, bce } => object(
            seq![
                member("cardinality"@, decimal(n as nat)),
                member("filler"@, tree_json(*bce, ns)),
                kind_member("ObjectMaxCardinality"@),
                member("property"@, json_string(man_term(ope, ns))),
            ],
        ),
        ExprV::ObjectExactCardinality { n, ope, bce } => object(
            seq![
                member("cardinality"@, decimal(n as nat)),
                member("filler"@, tree_json(*bce, ns)),
                kind_member("ObjectExactCardinality"@),
                member("property"@, json_string(man_term(ope, ns))),
            ],
        ),
        ExprV::ObjectComplementOf(b) => object(
            seq![member("filler"@, tree_json(*b, ns)), kind_member("ObjectComplementOf"@)],
        ),
        ExprV::ObjectHasValue { ope, i } => object(
            seq![
                member("individual"@, json_string(man_term(i, ns))),
                kind_member("ObjectHasValue"@),
                member("property"@, json_string(man_term(ope, ns))),
            ],
        ),
        ExprV::ObjectHasSelf(ope) => object(
            seq![kind_member("ObjectHasSelf"@), member("property"@, json_string(man_term(ope, ns)))],
        ),
        ExprV::ObjectOneOf(inds) => object(
            seq![member("individuals"@, "["@ + names_join(inds, inds.len() as int, ns) + "]"@), kind_member("ObjectOneOf"@)],
        ),
        ExprV::DataSomeValuesFrom { dp, dr } => object(
            seq![
                kind_member("DataSomeValuesFrom"@),
                member("property"@, json_string(man_term(dp, ns))),
                member("range"@, json_string(dr_man(dr, ns))),
            ],
        ),
        ExprV::DataAllValuesFrom { dp, dr } => object(
            seq![
                kind_member("DataAllValuesFrom"@),
                member("property"@, json_string(man_term(dp, ns))),
                member("range"@, json_string(dr_man(dr, ns))),
            ],
        ),
        ExprV::DataHasValue { dp, l } => object(
            seq![kind_member("DataHasValue"@), member("literal"@, json_string(l)), member("property"@, json_string(man_term(dp, ns)))],
        ),
        ExprV::DataMinCardinality { n, dp, dr } => object(
            seq![kind_member(data_card_debug("DataMinCardinality"@, n, dp, dr))],
        ),
        ExprV::DataMaxCardinality { n, dp, dr } => object(
            seq![kind_member(data_card_debug("DataMaxCardinality"@, n, dp, dr))],
        ),
        ExprV::DataExactCardinality { n, dp, dr } => object(
            seq![kind_member(data_card_debug("DataExactCardinality"@, n, dp, dr))],
        ),
    }
}

/// The trees of the first `k` expressions, separated by commas.
pub open spec fn trees_join(v: Seq<ExprV>, k: int, ns: Seq<(Seq<char>, Seq<char>)>) -> Seq<char>
    decreases v, k,
{
    if k <= 0 || k > v.len() {
        Seq::empty()
    } else if k == 1 {
        tree_json(v[0], ns)
    } else {
        trees_join(v, k - 1, ns) + ","@ + tree_json(v[k - 1], ns)
    }
}

/// The shown names of the first `k` IRIs as JSON strings, separated by commas.
pub open spec fn names_join(v: Seq<Seq<char>>, k: int, ns: Seq<(Seq<char>, Seq<char>)>) -> Seq<char>
    decreases k,
{
    if k <= 0 || k > v.len() {
        Seq::empty()
    } else if k == 1 {
        json_string(man_term(v[0], ns))
    } else {
        names_join(v, k - 1, ns) + ","@ + json_string(man_term(v[k - 1], ns))
    }
}

fn hex_digit_exec(n: u32) -> (r: char)
    requires
        n < 16,
    ensures
        r == hex_digit(n),
{
    let digits = chars_of("0123456789abcdef");
    proof {
        reveal_strlit("0123456789abcdef");
    }
    digits[n as usize]
}

/// `s` as a JSON string.
pub fn json_string_exec(s: &[char]) -> (r: Vec<char>)
    ensures
        r@ == json_string(s@),
{
    let mut out = chars_of("\"");
    let ghost start = out@;
    let mut i: usize = 0;
    while i < s.len()
        invariant
            0 <= i <= s.len(),
            start == "\""@,
            out@ == start + json_escape(s@.take(i as int)),
        decreases s.len() - i,
    {
        let c = s[i];
        assert(s@.take(i + 1).drop_last() =~= s@.take(i as int));
        let ghost before = out@;
        if c == '"' {
            push_str(&mut out, "\\\"");
        } else if c == '\\' {
            push_str(&mut out, "\\\\");
        } else if c == '\u{8}' {
            push_str(&mut out, "\\b");
        } else if c == '\u{c}' {
            push_str(&mut out, "\\f");
        } else if c == '\n' {
            push_str(&mut out, "\\n");
        } else if c == '\r' {
            push_str(&mut out, "\\r");
        } else if c == '\t' {
            push_str(&mut out, "\\t");
        } else if (c as u32) < 0x20 {
            push_str(&mut out, "\\u00");
            out.push(hex_digit_exec((c as u32) / 16));
            out.push(hex_digit_exec((c as u32) % 16));
        } else {
            out.push(c);
        }
        assert(out@ =~= before + json_escape_char(c));
        assert(json_escape(s@.take(i + 1)) =~= json_escape(s@.take(i as int)) + json_escape_char(c));
        i += 1;
    }
    assert(s@.take(s.len() as int) =~= s@);
    push_str(&mut out, "\"");
    out
}

fn member_exec(key: &str, value: &[char]) -> (r: Vec<char>)
    ensures
        r@ == member(key@, value@),
{
    let k = chars_of(key);
    let mut out = json_string_exec(k.as_slice());
    push_str(&mut out, ":");
    push_all(&mut out, value);
    out
}

fn kind_exec(kind: &str) -> (r: Vec<char>)
    ensures
        r@ == kind_member(kind@),
{
    let k = chars_of(kind);
    member_exec("kind", json_string_exec(k.as_slice()).as_slice())
}

fn object_exec(members: &Vec<Vec<char>>) -> (r: Vec<char>)
    ensures
        r@ == object(texts_of(members@)),
{
    let ghost mv = texts_of(members@);
    let mut out = chars_of("{");
    let ghost start = out@;
    let mut k: usize = 0;
    while k < members.len()
        invariant
            mv == texts_of(members@),
            mv.len() == members.len(),
            0 <= k <= members.len(),
            start == "{"@,
            out@ == start + join_with(mv, k as int),
        decreases members.len() - k,
    {
        assert(mv[k as int] == members@[k as int]@);
        if k > 0 {
            push_str(&mut out, ",");
        }
        push_all(&mut out, members[k].as_slice());
        k += 1;
    }
    push_str(&mut out, "}");
    out
}

fn name_exec(iri: &[char], ns: &Namespaces) -> (r: Vec<char>)
    ensures
        r@ == json_string(man_term(iri@, ns@)),
{
    json_string_exec(man_term_exec(iri, ns).as_slice())
}

fn names_exec(v: &Vec<Vec<char>>, ns: &Namespaces) -> (r: Vec<char>)
    ensures
        r@ == "["@ + names_join(texts_of(v@), v.len() as int, ns@) + "]"@,
{
    let ghost tv = texts_of(v@);
    let mut out = chars_of("[");
    let ghost start = out@;
    let mut k: usize = 0;
    while k < v.len()
        invariant
            tv == texts_of(v@),
            tv.len() == v.len(),
            0 <= k <= v.len(),
            start == "["@,
            out@ == start + names_join(tv, k as int, ns@),
        decreases v.len() - k,
    {
        assert(tv[k as int] == v@[k as int]@);
        if k > 0 {
            push_str(&mut out, ",");
        }
        push_all(&mut out, name_exec(v[k].as_slice(), ns).as_slice());
        k += 1;
    }
    push_str(&mut out, "]");
    out
}

fn trees_exec(v: &Vec<ClassExpression>, ns: &Namespaces, Ghost(parent): Ghost<ClassExpression>) -> (r: Vec<char>)
    requires
        decreases_to!(parent => v),
    ensures
        r@ == "["@ + trees_join(exprs_v(v@), v.len() as int, ns@) + "]"@,
        exprs_v(v@).len() == v.len(),
    decreases parent, 1int,
{
    let ghost ev = exprs_v(v@);
    proof {
        lemma_exprs_index(v@);
    }
    let mut out = chars_of("[");
    let ghost start = out@;
    let mut k: usize = 0;
    while k < v.len()
        invariant
            ev == exprs_v(v@),
            ev.len() == v.len(),
            forall|j: int| 0 <= j < v.len() ==> #[trigger] ev[j] == expr_v(v@[j]),
            decreases_to!(parent => v),
            0 <= k <= v.len(),
            start == "["@,
            out@ == start + trees_join(ev, k as int, ns@),
        decreases v.len() - k,
    {
        assert(ev[k as int] == v@[k as int]@);
        proof {
            assert(decreases_to!(v => v[k as int]));
        }
        let x = tree_exec(&v[k], ns);
        if k > 0 {
            push_str(&mut out, ",");
        }
        push_all(&mut out, x.as_slice());
        k += 1;
    }
    push_str(&mut out, "]");
    out
}

fn obj1(a: Vec<char>) -> (r: Vec<char>)
    ensures
        r@ == object(seq![a@]),
{
    let mut m: Vec<Vec<char>> = Vec::new();
    m.push(a);
    assert(texts_of(m@) =~= seq![a@]);
    object_exec(&m)
}

fn obj2(a: Vec<char>, b: Vec<char>) -> (r: Vec<char>)
    ensures
        r@ == object(seq![a@, b@]),
{
    let mut m: Vec<Vec<char>> = Vec::new();
    m.push(a);
    m.push(b);
    assert(texts_of(m@) =~= seq![a@, b@]);
    object_exec(&m)
}

fn obj3(a: Vec<char>, b: Vec<char>, c: Vec<char>) -> (r: Vec<char>)
    ensures
        r@ == object(seq![a@, b@, c@]),
{
    let mut m: Vec<Vec<char>> = Vec::new();
    m.push(a);
    m.push(b);
    m.push(c);
    assert(texts_of(m@) =~= seq![a@, b@, c@]);
    object_exec(&m)
}

fn obj4(a: Vec<char>, b: Vec<char>, c: Vec<char>, d: Vec<char>) -> (r: Vec<char>)
    ensures
        r@ == object(seq![a@, b@, c@, d@]),
{
    let mut m: Vec<Vec<char>> = Vec::new();
    m.push(a);
    m.push(b);
    m.push(c);
    m.push(d);
    assert(texts_of(m@) =~= seq![a@, b@, c@, d@]);
    object_exec(&m)
}

fn debug_kind_exec(text: &[char]) -> (r: Vec<char>)
    ensures
        r@ == kind_member(text@),
{
    member_exec("kind", json_string_exec(text).as_slice())
}

fn iri_debug_exec(s: &[char]) -> (r: Vec<char>)
    ensures
        r@ == iri_debug(s@),
{
    let mut out = chars_of("IRI(");
    push_all(&mut out, debug_text(s).as_slice());
    push_str(&mut out, ")");
    proof {
        reveal_strlit("IRI(");
        reveal_strlit(")");
    }
    assert(out@ =~= iri_debug(s@));
    out
}

fn facet_debug_exec(f: Facet) -> (r: &'static str)
    ensures
        r@ == facet_debug(f),
{
    match f {
        Facet::MinInclusive => "MinInclusive",
        Facet::MaxInclusive => "MaxInclusive",
        Facet::MinExclusive => "MinExclusive",
        Facet::MaxExclusive => "MaxExclusive",
        Facet::Length => "Length",
        Facet::MinLength => "MinLength",
        Facet::MaxLength => "MaxLength",
        Facet::Pattern => "Pattern",
        Facet::TotalDigits => "TotalDigits",
        Facet::FractionDigits => "FractionDigits",
    }
}

fn literal_debug_exec(l: &[char]) -> (r: Vec<char>)
    ensures
        r@ == literal_debug(l@),
{
    let mut out = chars_of("Simple { literal: ");
    push_all(&mut out, debug_text(l).as_slice());
    push_str(&mut out, " }");
    assert(out@ =~= literal_debug(l@));
    out
}

fn dr_debug_exec(dr: &DataRange) -> (r: Vec<char>)
    ensures
        r@ == dr_debug(dr@),
    decreases dr, 2int,
{
    match dr {
        DataRange::Datatype(d) => {
            let mut out = chars_of("Datatype(Datatype(");
            push_all(&mut out, iri_debug_exec(d.as_slice()).as_slice());
            push_str(&mut out, "))");
            out
        },
        DataRange::DatatypeRestriction(d, fs) => {
            let mut out = chars_of("DatatypeRestriction(Datatype(");
            push_all(&mut out, iri_debug_exec(d.as_slice()).as_slice());
            push_str(&mut out, "), [");
            let ghost fv = facets_v(fs@);
            let ghost start = out@;
            let mut k: usize = 0;
            while k < fs.len()
                invariant
                    fv == facets_v(fs@),
                    fv.len() == fs.len(),
                    0 <= k <= fs.len(),
                    out@ == start + facets_debug(fv, k as int),
                decreases fs.len() - k,
            {
                let ghost before = out@;
                if k > 0 {
                    push_str(&mut out, ", ");
                }
                push_str(&mut out, "FacetRestriction { f: ");
                push_str(&mut out, facet_debug_exec(fs[k].0));
                push_str(&mut out, ", l: ");
                push_all(&mut out, literal_debug_exec(fs[k].1.as_slice()).as_slice());
                push_str(&mut out, " }");
                assert(fv[k as int] == (fs@[k as int].0, fs@[k as int].1@));
                k += 1;
            }
            push_str(&mut out, "])");
            out
        },
        DataRange::DataOneOf(lits) => {
            let ghost lv = texts_of(lits@);
            let mut out = chars_of("DataOneOf([");
            let ghost start = out@;
            let mut k: usize = 0;
            while k < lits.len()
                invariant
                    lv == texts_of(lits@),
                    lv.len() == lits.len(),
                    0 <= k <= lits.len(),
                    out@ == start + literals_debug(lv, k as int),
                decreases lits.len() - k,
            {
                if k > 0 {
                    push_str(&mut out, ", ");
                }
                push_all(&mut out, literal_debug_exec(lits[k].as_slice()).as_slice());
                assert(lv[k as int] == lits@[k as int]@);
                k += 1;
            }
            push_str(&mut out, "])");
            out
        },
        DataRange::DataComplementOf(b) => {
            let mut out = chars_of("DataComplementOf(");
            push_all(&mut out, dr_debug_exec(b).as_slice());
            push_str(&mut out, ")");
            out
        },
        DataRange::DataIntersectionOf(parts) => {
            let mut out = chars_of("DataIntersectionOf([");
            push_all(&mut out, dr_debug_list(parts, Ghost(*dr)).as_slice());
            push_str(&mut out, "])");
            out
        },
        DataRange::DataUnionOf(parts) => {
            let mut out = chars_of("DataUnionOf([");
            push_all(&mut out, dr_debug_list(parts, Ghost(*dr)).as_slice());
            push_str(&mut out, "])");
            out
        },
    }
}

fn dr_debug_list(parts: &Vec<DataRange>, Ghost(parent): Ghost<DataRange>) -> (r: Vec<char>)
    requires
        decreases_to!(parent => parts),
    ensures
        r@ == dr_debug_join(ranges_v(parts@), parts.len() as int),
        ranges_v(parts@).len() == parts.len(),
    decreases parent, 1int,
{
    let ghost pv = ranges_v(parts@);
    proof {
        lemma_ranges_index(parts@);
    }
    let mut out: Vec<char> = Vec::new();
    let mut k: usize = 0;
    while k < parts.len()
        invariant
            pv == ranges_v(parts@),
            pv.len() == parts.len(),
            forall|j: int| 0 <= j < parts.len() ==> #[trigger] pv[j] == range_v(parts@[j]),
            decreases_to!(parent => parts),
            0 <= k <= parts.len(),
            out@ == dr_debug_join(pv, k as int),
        decreases parts.len() - k,
    {
        assert(pv[k as int] == parts@[k as int]@);
        proof {
            assert(decreases_to!(parts => parts[k as int]));
        }
        let x = dr_debug_exec(&parts[k]);
        if k > 0 {
            push_str(&mut out, ", ");
        }
        push_all(&mut out, x.as_slice());
        k += 1;
    }
    out
}

fn card_debug_exec(kind: &str, n: u32, dp: &[char], dr: &DataRange) -> (r: Vec<char>)
    ensures
        r@ == data_card_debug(kind@, n, dp@, dr@),
{
    let mut out = chars_of(kind);
    push_str(&mut out, " { n: ");
    push_all(&mut out, decimal_exec(n as u64).as_slice());
    push_str(&mut out, ", dp: DataProperty(");
    push_all(&mut out, iri_debug_exec(dp).as_slice());
    push_str(&mut out, "), dr: ");
    push_all(&mut out, dr_debug_exec(dr).as_slice());
    push_str(&mut out, " }");
    assert(out@ =~= data_card_debug(kind@, n, dp@, dr@));
    out
}

fn tree_exec(e: &ClassExpression, ns: &Namespaces) -> (r: Vec<char>)
    ensures
        r@ == tree_json(e@, ns@),
    decreases e, 2int,
{
    match e {
        ClassExpression::Class(c) => {
            obj2(kind_exec("Class"), member_exec("label", name_exec(c.as_slice(), ns).as_slice()))
        },
        ClassExpression::ObjectIntersectionOf(v) => {
            obj2(
                member_exec("children", trees_exec(v, ns, Ghost(*e)).as_slice()),
                kind_exec("ObjectIntersectionOf"),
            )
        },
        ClassExpression::ObjectUnionOf(v) => {
            obj2(
                member_exec("children", trees_exec(v, ns, Ghost(*e)).as_slice()),
                kind_exec("ObjectUnionOf"),
            )
        },
        ClassExpression::ObjectSomeValuesFrom { ope, bce } => {
            obj3(
                member_exec("filler", tree_exec(bce, ns).as_slice()),
                kind_exec("ObjectSomeValuesFrom"),
                member_exec("property", name_exec(ope.as_slice(), ns).as_slice()),
            )
        },
        ClassExpression::ObjectAllValuesFrom { ope, bce } => {
            obj3(
                member_exec("filler", tree_exec(bce, ns).as_slice()),
                kind_exec("ObjectAllValuesFrom"),
                member_exec("property", name_exec(ope.as_slice(), ns).as_slice()),
            )
        },
        ClassExpression::ObjectMinCardinality { n, ope, bce } => {
            obj4(
                member_exec("cardinality", decimal_exec(*n as u64).as_slice()),
                member_exec("filler", tree_exec(bce, ns).as_slice()),
                kind_exec("ObjectMinCardinality"),
                member_exec("property", name_exec(ope.as_slice(), ns).as_slice()),
            )
        },
        ClassExpression::ObjectMaxCardinality { n, ope, bce } => {
            obj4(
                member_exec("cardinality", decimal_exec(*n as u64).as_slice()),
                member_exec("filler", tree_exec(bce, ns).as_slice()),
                kind_exec("ObjectMaxCardinality"),
                member_exec("property", name_exec(ope.as_slice(), ns).as_slice()),
            )
        },
        ClassExpression::ObjectExactCardinality { n, ope, bce } => {
            obj4(
                member_exec("cardinality", decimal_exec(*n as u64).as_slice()),
                member_exec("filler", tree_exec(bce, ns).as_slice()),
                kind_exec("ObjectExactCardinality"),
                member_exec("property", name_exec(ope.as_slice(), ns).as_slice()),
            )
        },
        ClassExpression::ObjectComplementOf(b) => {
            obj2(
                member_exec("filler", tree_exec(b, ns).as_slice()),
                kind_exec("ObjectComplementOf"),
            )
        },
        ClassExpression::ObjectHasValue { ope, i } => {
            obj3(
                member_exec("individual", name_exec(i.as_slice(), ns).as_slice()),
                kind_exec("ObjectHasValue"),
                member_exec("property", name_exec(ope.as_slice(), ns).as_slice()),
            )
        },
        ClassExpression::ObjectHasSelf(ope) => {
            obj2(
                kind_exec("ObjectHasSelf"),
                member_exec("property", name_exec(ope.as_slice(), ns).as_slice()),
            )
        },
        ClassExpression::ObjectOneOf(inds) => {
            obj2(
                member_exec("individuals", names_exec(inds, ns).as_slice()),
                kind_exec("ObjectOneOf"),
            )
        },
        ClassExpression::DataSomeValuesFrom { dp, dr } => {
            obj3(
                kind_exec("DataSomeValuesFrom"),
                member_exec("property", name_exec(dp.as_slice(), ns).as_slice()),
                member_exec("range", json_string_exec(dr_man_exec(dr, ns).as_slice()).as_slice()),
            )
        },
        ClassExpression::DataAllValuesFrom { dp, dr } => {
            obj3(
                kind_exec("DataAllValuesFrom"),
                member_exec("property", name_exec(dp.as_slice(), ns).as_slice()),
                member_exec("range", json_string_exec(dr_man_exec(dr, ns).as_slice()).as_slice()),
            )
        },
        ClassExpression::DataHasValue { dp, l } => {
            obj3(
                kind_exec("DataHasValue"),
                member_exec("literal", json_string_exec(l.as_slice()).as_slice()),
                member_exec("property", name_exec(dp.as_slice(), ns).as_slice()),
            )
        },
        ClassExpression::DataMinCardinality { n, dp, dr } => {
            obj1(debug_kind_exec(card_debug_exec("DataMinCardinality", *n, dp.as_slice(), dr).as_slice()))
        },
        ClassExpression::DataMaxCardinality { n, dp, dr } => {
            obj1(debug_kind_exec(card_debug_exec("DataMaxCardinality", *n, dp.as_slice(), dr).as_slice()))
        },
        ClassExpression::DataExactCardinality { n, dp, dr } => {
            obj1(debug_kind_exec(card_debug_exec("DataExactCardinality", *n, dp.as_slice(), dr).as_slice()))
        },
    }
}

/// `expression_tree_json`: the tree of `e` as compact JSON text (see `tree_json`).
pub fn expression_tree_json(e: &ClassExpression, ns: &Namespaces) -> (r: String)
    ensures
        r@ == tree_json(e@, ns@),
{
    string_from(tree_exec(e, ns).as_slice())
}

} // verus!
