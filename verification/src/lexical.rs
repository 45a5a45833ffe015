//! Replacement of the lexical form of a literal, keeping its language tag or datatype.
use vstd::prelude::*;
use crate::text::{chars_of, string_from};

verus! {

/// A literal after its lexical form was replaced: a language tag, when present, excludes a
/// datatype.
#[derive(Debug, Clone, PartialEq, Eq)]
pub struct LexicalLiteral {
    pub lexical: String,
    pub lang: Option<String>,
    pub datatype: Option<String>,
}

/// What `regex::Regex::replace_all` makes of `text` for the regular expression `pattern` and
/// the replacement template `replacement`, or `None` when `pattern` does not compile.
pub uninterp spec fn regex_replace_all(pattern: Seq<char>, text: Seq<char>, replacement: Seq<char>) -> Option<Seq<char>>;

/// Compiles `pattern` with `regex::Regex::new` and applies `replace_all` to `text` with the
/// template `replacement`. Claimed: the result is a function of the three texts, named
/// `regex_replace_all`; nothing more is stated of it.
#[verifier::external_body]
fn regex_replace(pattern: &str, text: &str, replacement: &str) -> (r: Option<String>)
    ensures
        match r {
            Some(s) => regex_replace_all(pattern@, text@, replacement@) == Some(s@),
            None => regex_replace_all(pattern@, text@, replacement@) is None,
        },
{
    match regex::Regex::new(pattern) {
        Err(_) => None,
        Ok(re) => Some(re.replace_all(text, replacement).into_owned()),
    }
}

fn copy_opt(s: Option<&str>) -> (r: Option<String>)
    ensures
        match s {
            Some(x) => r matches Some(y) && y@ == x@,
            None => r is None,
        },
{
    match s {
        Some(x) => Some(string_from(chars_of(x).as_slice())),
        None => None,
    }
}

/// The literal with lexical form `lexical` that keeps `lang` and, only when there is no
/// language tag, `datatype`.
pub open spec fn literal_matches(r: LexicalLiteral, lexical: Seq<char>, lang: Option<&str>, datatype: Option<&str>) -> bool {
    &&& r.lexical@ == lexical
    &&& match lang {
        Some(l) => r.lang matches Some(x) && x@ == l@ && r.datatype is None,
        None => r.lang is None && match datatype {
            Some(d) => r.datatype matches Some(x) && x@ == d@,
            None => r.datatype is None,
        },
    }
}

/// The literal with the new lexical form `lexical`, keeping `lang` or else `datatype`.
pub fn lexical_literal(lexical: &str, lang: Option<&str>, datatype: Option<&str>) -> (r: LexicalLiteral)
    ensures
        literal_matches(r, lexical@, lang, datatype),
{
    let datatype = if lang.is_some() {
        None
    } else {
        copy_opt(datatype)
    };
    LexicalLiteral { lexical: string_from(chars_of(lexical).as_slice()), lang: copy_opt(lang), datatype }
}

/// `replace_lexical_value`: every match of the regular expression `pattern` in `lexical`
/// replaced by `replacement`, keeping the language tag or else the datatype; `None` when
/// `pattern` is not a valid regular expression.
pub fn replace_lexical_value(
    lexical: &str,
    lang: Option<&str>,
    datatype: Option<&str>,
    pattern: &str,
    replacement: &str,
) -> (r: Option<LexicalLiteral>)
    ensures
        match regex_replace_all(pattern@, lexical@, replacement@) {
            Some(t) => r matches Some(l) && literal_matches(l, t, lang, datatype),
            None => r is None,
        },
{
    match regex_replace(pattern, lexical, replacement) {
        Some(t) => Some(lexical_literal(t.as_str(), lang, datatype)),
        None => None,
    }
}

/// The pattern matching a whole text, line breaks included.
pub open spec fn whole_text_pattern() -> Seq<char> {
    "(?s)^.*$"@
}

/// `replace_lexical_value_whole`: the whole lexical form replaced by `replacement` (the
/// replacement of `whole_text_pattern`), keeping the language tag or else the datatype.
pub fn replace_lexical_value_whole(
    lexical: &str,
    lang: Option<&str>,
    datatype: Option<&str>,
    replacement: &str,
) -> (r: Option<LexicalLiteral>)
    ensures
        match regex_replace_all(whole_text_pattern(), lexical@, replacement@) {
            Some(t) => r matches Some(l) && literal_matches(l, t, lang, datatype),
            None => r is None,
        },
{
    replace_lexical_value(lexical, lang, datatype, "(?s)^.*$", replacement)
}

} // verus!
