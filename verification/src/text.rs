//! Character-sequence primitives shared by every text-processing module.
//!
//! Text is handled as a `Vec<char>` whose view is the `Seq<char>` of a Rust string.
use vstd::prelude::*;

verus! {

/// `char::is_whitespace`: the Unicode `White_Space` property.
pub open spec fn is_ws(c: char) -> bool {
    ('\u{9}' <= c && c <= '\u{d}') || c == ' ' || c == '\u{85}' || c == '\u{a0}'
        || c == '\u{1680}' || ('\u{2000}' <= c && c <= '\u{200a}') || c == '\u{2028}'
        || c == '\u{2029}' || c == '\u{202f}' || c == '\u{205f}' || c == '\u{3000}'
}

/// `u8::is_ascii_whitespace` applied to a character.
pub open spec fn is_ascii_ws(c: char) -> bool {
    c == ' ' || c == '\t' || c == '\n' || c == '\u{c}' || c == '\r'
}

/// ASCII letters and digits.
pub open spec fn is_ascii_alnum(c: char) -> bool {
    ('a' <= c && c <= 'z') || ('A' <= c && c <= 'Z') || ('0' <= c && c <= '9')
}

/// ASCII decimal digits.
pub open spec fn is_ascii_digit(c: char) -> bool {
    '0' <= c && c <= '9'
}

pub fn ws(c: char) -> (r: bool)
    ensures
        r == is_ws(c),
{
    ('\u{9}' <= c && c <= '\u{d}') || c == ' ' || c == '\u{85}' || c == '\u{a0}' || c
        == '\u{1680}' || ('\u{2000}' <= c && c <= '\u{200a}') || c == '\u{2028}' || c
        == '\u{2029}' || c == '\u{202f}' || c == '\u{205f}' || c == '\u{3000}'
}

pub fn ascii_ws(c: char) -> (r: bool)
    ensures
        r == is_ascii_ws(c),
{
    c == ' ' || c == '\t' || c == '\n' || c == '\u{c}' || c == '\r'
}

pub fn ascii_alnum(c: char) -> (r: bool)
    ensures
        r == is_ascii_alnum(c),
{
    ('a' <= c && c <= 'z') || ('A' <= c && c <= 'Z') || ('0' <= c && c <= '9')
}

/// ASCII upper-casing of one character (`char::to_ascii_uppercase`).
pub open spec fn upper_spec(c: char) -> char {
    if 'a' <= c && c <= 'z' {
        ((c as u32) - 32) as char
    } else {
        c
    }
}

pub fn upper(c: char) -> (r: char)
    ensures
        r == upper_spec(c),
{
    if 'a' <= c && c <= 'z' {
        let v: u32 = (c as u32) - 32;
        assert(0x41 <= v <= 0x5a);
        let r: char = if v == 0x41 { 'A' } else { char_from_ascii(v) };
        r
    } else {
        c
    }
}

/// Character for an ASCII upper-case letter code.
fn char_from_ascii(v: u32) -> (r: char)
    requires
        0x41 <= v <= 0x5a,
    ensures
        r == v as char,
{
    let b: u8 = v as u8;
    let r: char = b as char;
    r
}

/// `s` occurs in `t` at index `i`.
pub open spec fn occurs_at(t: Seq<char>, i: int, s: Seq<char>) -> bool {
    0 <= i && i + s.len() <= t.len() && t.subrange(i, i + s.len()) == s
}

/// `t` starts with `s`.
pub open spec fn starts_with(t: Seq<char>, s: Seq<char>) -> bool {
    occurs_at(t, 0, s)
}

/// `t` ends with `s`.
pub open spec fn ends_with(t: Seq<char>, s: Seq<char>) -> bool {
    occurs_at(t, t.len() - s.len(), s)
}

/// `s` occurs somewhere in `t`.
pub open spec fn contains(t: Seq<char>, s: Seq<char>) -> bool {
    exists|i: int| occurs_at(t, i, s)
}

/// Index of the first occurrence of `s` in `t` at or after `from`, or -1.
pub open spec fn find_from_spec(t: Seq<char>, from: int, s: Seq<char>) -> int
    decreases t.len() + 1 - from,
{
    if from < 0 || from + s.len() > t.len() {
        -1
    } else if occurs_at(t, from, s) {
        from
    } else {
        find_from_spec(t, from + 1, s)
    }
}

/// Index of the first occurrence of `c` at or after `from`, or `t.len()`.
pub open spec fn next_char(t: Seq<char>, from: int, c: char) -> int
    decreases t.len() - from,
{
    if from < 0 || from >= t.len() {
        t.len() as int
    } else if t[from] == c {
        from
    } else {
        next_char(t, from + 1, c)
    }
}

/// Index of the last occurrence of `c` in `t`, or -1.
pub open spec fn last_index(t: Seq<char>, c: char) -> int
    decreases t.len(),
{
    if t.len() == 0 {
        -1
    } else if t.last() == c {
        t.len() - 1
    } else {
        last_index(t.drop_last(), c)
    }
}

/// Index of the first character of `t` at or after `i` that is not whitespace (or `t.len()`).
pub open spec fn skip_ws(t: Seq<char>, i: int) -> int
    decreases t.len() - i,
{
    if i < 0 || i >= t.len() {
        if i < 0 { 0 } else { t.len() as int }
    } else if is_ws(t[i]) {
        skip_ws(t, i + 1)
    } else {
        i
    }
}

/// End of `t[..e]` after dropping trailing whitespace.
pub open spec fn trim_end_at(t: Seq<char>, e: int) -> int
    decreases e,
{
    if e <= 0 {
        0
    } else if is_ws(t[e - 1]) {
        trim_end_at(t, e - 1)
    } else {
        e
    }
}

/// `str::trim_start`.
pub open spec fn trim_start(t: Seq<char>) -> Seq<char> {
    t.subrange(skip_ws(t, 0), t.len() as int)
}

/// `str::trim_end`.
pub open spec fn trim_end(t: Seq<char>) -> Seq<char> {
    t.subrange(0, trim_end_at(t, t.len() as int))
}

/// `str::trim`.
pub open spec fn trim(t: Seq<char>) -> Seq<char> {
    trim_end(trim_start(t))
}

pub proof fn lemma_skip_ws_bounds(t: Seq<char>, i: int)
    requires
        0 <= i <= t.len(),
    ensures
        i <= skip_ws(t, i) <= t.len(),
        forall|k: int| i <= k < skip_ws(t, i) ==> is_ws(#[trigger] t[k]),
        skip_ws(t, i) < t.len() ==> !is_ws(t[skip_ws(t, i)]),
    decreases t.len() - i,
{
    if i < t.len() && is_ws(t[i]) {
        lemma_skip_ws_bounds(t, i + 1);
    }
}

pub proof fn lemma_trim_end_bounds(t: Seq<char>, e: int)
    requires
        0 <= e <= t.len(),
    ensures
        0 <= trim_end_at(t, e) <= e,
        forall|k: int| trim_end_at(t, e) <= k < e ==> is_ws(#[trigger] t[k]),
        trim_end_at(t, e) > 0 ==> !is_ws(t[trim_end_at(t, e) - 1]),
    decreases e,
{
    if e > 0 && is_ws(t[e - 1]) {
        lemma_trim_end_bounds(t, e - 1);
    }
}

pub proof fn lemma_next_char_bounds(t: Seq<char>, from: int, c: char)
    requires
        0 <= from <= t.len(),
    ensures
        from <= next_char(t, from, c) <= t.len(),
        next_char(t, from, c) < t.len() ==> t[next_char(t, from, c)] == c,
        forall|k: int| from <= k < next_char(t, from, c) ==> t[k] != c,
    decreases t.len() - from,
{
    if from < t.len() && t[from] != c {
        lemma_next_char_bounds(t, from + 1, c);
    }
}

pub proof fn lemma_last_index_bounds(t: Seq<char>, c: char)
    ensures
        -1 <= last_index(t, c) < t.len(),
        last_index(t, c) >= 0 ==> t[last_index(t, c)] == c,
        forall|k: int| last_index(t, c) < k < t.len() ==> t[k] != c,
    decreases t.len(),
{
    if t.len() > 0 && t.last() != c {
        lemma_last_index_bounds(t.drop_last(), c);
        assert forall|k: int| last_index(t, c) < k < t.len() implies t[k] != c by {
            if k < t.len() - 1 {
                assert(t[k] == t.drop_last()[k]);
            }
        }
    }
}

/// Copy a `&str` into a character vector.
pub fn chars_of(s: &str) -> (v: Vec<char>)
    ensures
        v@ == s@,
{
    let mut v: Vec<char> = Vec::new();
    for c in it: s.chars()
        invariant
            v@ == it.seq().take(it.index() as int),
            it.seq() == s@,
    {
        v.push(c);
    }
    v
}

/// `String` holding exactly the characters of `v` (`String: FromIterator<char>`).
#[verifier::external_body]
pub(crate) fn string_from(v: &[char]) -> (s: String)
    ensures
        s@ == v@,
{
    v.iter().collect::<String>()
}

/// Append all of `s` to `out`.
pub fn push_all(out: &mut Vec<char>, s: &[char])
    ensures
        final(out)@ == old(out)@ + s@,
{
    let mut i: usize = 0;
    while i < s.len()
        invariant
            0 <= i <= s.len(),
            out@ == old(out)@ + s@.subrange(0, i as int),
        decreases s.len() - i,
    {
        out.push(s[i]);
        i += 1;
        assert(s@.subrange(0, i as int) == s@.subrange(0, i - 1) + seq![s@[i - 1]]);
    }
    assert(s@.subrange(0, s.len() as int) == s@);
}

/// Append the characters of `s` to `out`.
pub fn push_str(out: &mut Vec<char>, s: &str)
    ensures
        final(out)@ == old(out)@ + s@,
{
    let v = chars_of(s);
    push_all(out, v.as_slice());
}

/// Characters `s[a..b]`.
pub fn slice_chars(s: &[char], a: usize, b: usize) -> (r: Vec<char>)
    requires
        a <= b <= s.len(),
    ensures
        r@ == s@.subrange(a as int, b as int),
{
    let mut r: Vec<char> = Vec::new();
    let mut i: usize = a;
    while i < b
        invariant
            a <= i <= b <= s.len(),
            r@ == s@.subrange(a as int, i as int),
        decreases b - i,
    {
        r.push(s[i]);
        i += 1;
        assert(s@.subrange(a as int, i as int) == s@.subrange(a as int, i - 1) + seq![s@[i - 1]]);
    }
    r
}

/// Sequence equality of two character slices.
pub fn seq_eq(a: &[char], b: &[char]) -> (r: bool)
    ensures
        r == (a@ == b@),
{
    if a.len() != b.len() {
        return false;
    }
    let mut i: usize = 0;
    while i < a.len()
        invariant
            a.len() == b.len(),
            0 <= i <= a.len(),
            forall|k: int| 0 <= k < i ==> a@[k] == b@[k],
        decreases a.len() - i,
    {
        if a[i] != b[i] {
            return false;
        }
        i += 1;
    }
    assert(a@ =~= b@);
    true
}

/// Whether `p` occurs in `t` at index `i`.
pub fn occurs(t: &[char], i: usize, p: &[char]) -> (r: bool)
    ensures
        r == occurs_at(t@, i as int, p@),
{
    if i > t.len() || p.len() > t.len() - i {
        return false;
    }
    let mut k: usize = 0;
    while k < p.len()
        invariant
            i + p.len() <= t.len(),
            0 <= k <= p.len(),
            forall|j: int| 0 <= j < k ==> t@[i + j] == p@[j],
        decreases p.len() - k,
    {
        if t[i + k] != p[k] {
            assert(t@.subrange(i as int, i + p.len())[k as int] != p@[k as int]);
            return false;
        }
        k += 1;
    }
    assert(t@.subrange(i as int, i + p.len()) =~= p@);
    true
}

/// First occurrence of `p` in `t` at or after `from`.
pub fn find_from(t: &[char], from: usize, p: &[char]) -> (r: Option<usize>)
    ensures
        match r {
            Some(i) => i as int == find_from_spec(t@, from as int, p@) && i >= from && occurs_at(
                t@,
                i as int,
                p@,
            ),
            None => find_from_spec(t@, from as int, p@) == -1,
        },
{
    let mut i: usize = from;
    while i <= t.len() && p.len() <= t.len() - i
        invariant
            from <= i,
            find_from_spec(t@, from as int, p@) == find_from_spec(t@, i as int, p@),
        decreases t.len() + 1 - i,
    {
        if occurs(t, i, p) {
            return Some(i);
        }
        if i == t.len() {
            assert(find_from_spec(t@, i as int, p@) == find_from_spec(t@, i + 1, p@));
            return None;
        }
        i += 1;
    }
    None
}

/// Whether `p` occurs anywhere in `t`.
pub fn contains_exec(t: &[char], p: &[char]) -> (r: bool)
    ensures
        r == contains(t@, p@),
{
    let r = find_from(t, 0, p);
    proof {
        lemma_find_from_none(t@, 0, p@);
    }
    r.is_some()
}

pub proof fn lemma_find_from_none(t: Seq<char>, from: int, p: Seq<char>)
    requires
        0 <= from,
    ensures
        find_from_spec(t, from, p) == -1 <==> (forall|i: int| from <= i ==> !occurs_at(t, i, p)),
        find_from_spec(t, from, p) != -1 ==> from <= find_from_spec(t, from, p) && occurs_at(
            t,
            find_from_spec(t, from, p),
            p,
        ) && forall|i: int| from <= i < find_from_spec(t, from, p) ==> !occurs_at(t, i, p),
    decreases t.len() + 1 - from,
{
    if from + p.len() > t.len() {
    } else if occurs_at(t, from, p) {
    } else {
        lemma_find_from_none(t, from + 1, p);
        assert forall|i: int| from <= i implies !occurs_at(t, i, p) || find_from_spec(
            t,
            from,
            p,
        ) != -1 by {
            if i == from {
            }
        }
    }
}

/// Whether `t` starts with `p`.
pub fn starts_with_exec(t: &[char], p: &[char]) -> (r: bool)
    ensures
        r == starts_with(t@, p@),
{
    occurs(t, 0, p)
}

/// Whether `t` ends with `p`.
pub fn ends_with_exec(t: &[char], p: &[char]) -> (r: bool)
    ensures
        r == ends_with(t@, p@),
{
    if p.len() > t.len() {
        return false;
    }
    occurs(t, t.len() - p.len(), p)
}

/// Index of the first non-whitespace character at or after `i`.
pub fn skip_ws_exec(t: &[char], i: usize) -> (r: usize)
    requires
        i <= t.len(),
    ensures
        r as int == skip_ws(t@, i as int),
{
    let mut k: usize = i;
    while k < t.len() && ws(t[k])
        invariant
            i <= k <= t.len(),
            skip_ws(t@, i as int) == skip_ws(t@, k as int),
        decreases t.len() - k,
    {
        k += 1;
    }
    k
}

/// End of `t[..e]` with trailing whitespace dropped.
pub fn trim_end_exec(t: &[char], e: usize) -> (r: usize)
    requires
        e <= t.len(),
    ensures
        r as int == trim_end_at(t@, e as int),
{
    let mut k: usize = e;
    while k > 0 && ws(t[k - 1])
        invariant
            k <= e <= t.len(),
            trim_end_at(t@, e as int) == trim_end_at(t@, k as int),
        decreases k,
    {
        k -= 1;
    }
    k
}

/// First index of `c` at or after `from` (or `t.len()`).
pub fn next_char_exec(t: &[char], from: usize, c: char) -> (r: usize)
    requires
        from <= t.len(),
    ensures
        r as int == next_char(t@, from as int, c),
{
    let mut k: usize = from;
    while k < t.len() && t[k] != c
        invariant
            from <= k <= t.len(),
            next_char(t@, from as int, c) == next_char(t@, k as int, c),
        decreases t.len() - k,
    {
        k += 1;
    }
    k
}

/// Last index of `c` in `t`.
pub fn last_index_exec(t: &[char], c: char) -> (r: Option<usize>)
    ensures
        match r {
            Some(i) => i as int == last_index(t@, c),
            None => last_index(t@, c) == -1,
        },
{
    let mut k: usize = t.len();
    assert(t@.subrange(0, k as int) == t@);
    while k > 0
        invariant
            k <= t.len(),
            last_index(t@, c) == last_index(t@.subrange(0, k as int), c),
        decreases k,
    {
        assert(t@.subrange(0, k as int).drop_last() == t@.subrange(0, k - 1));
        if t[k - 1] == c {
            return Some(k - 1);
        }
        k -= 1;
    }
    None
}

/// Trimmed copy of `t` (`str::trim`).
pub fn trim_exec(t: &[char]) -> (r: Vec<char>)
    ensures
        r@ == trim(t@),
{
    let s = skip_ws_exec(t, 0);
    proof {
        lemma_skip_ws_bounds(t@, 0);
    }
    let mid = slice_chars(t, s, t.len());
    let e = trim_end_exec(mid.as_slice(), mid.len());
    proof {
        lemma_trim_end_bounds(mid@, mid@.len() as int);
    }
    slice_chars(mid.as_slice(), 0, e)
}

} // verus!

verus! {

/// `str::replace`: every non-overlapping occurrence of `pat`, scanning left to right, becomes `rep`.
pub open spec fn replace_all(s: Seq<char>, pat: Seq<char>, rep: Seq<char>) -> Seq<char>
    decreases s.len(),
{
    if pat.len() == 0 || s.len() == 0 {
        s
    } else if starts_with(s, pat) {
        rep + replace_all(s.skip(pat.len() as int), pat, rep)
    } else {
        seq![s[0]] + replace_all(s.drop_first(), pat, rep)
    }
}

/// Replace every occurrence of `pat` (non-empty) by `rep`.
pub fn replace_exec(s: &[char], pat: &[char], rep: &[char]) -> (r: Vec<char>)
    requires
        pat.len() > 0,
    ensures
        r@ == replace_all(s@, pat@, rep@),
{
    let mut out: Vec<char> = Vec::new();
    let mut i: usize = 0;
    assert(s@.skip(0) == s@);
    while i < s.len()
        invariant
            pat.len() > 0,
            0 <= i <= s.len(),
            replace_all(s@, pat@, rep@) == out@ + replace_all(s@.skip(i as int), pat@, rep@),
        decreases s.len() - i,
    {
        let ghost rest = s@.skip(i as int);
        if occurs(s, i, pat) {
            assert(rest.subrange(0, pat@.len() as int) == s@.subrange(i as int, i + pat@.len()));
            assert(rest.skip(pat@.len() as int) == s@.skip(i + pat@.len()));
            push_all(&mut out, rep);
            i += pat.len();
        } else {
            assert(!starts_with(rest, pat@)) by {
                if rest.len() >= pat@.len() {
                    assert(rest.subrange(0, pat@.len() as int) == s@.subrange(
                        i as int,
                        i + pat@.len(),
                    ));
                }
            }
            assert(rest.drop_first() == s@.skip(i + 1));
            out.push(s[i]);
            i += 1;
        }
    }
    assert(s@.skip(i as int).len() == 0);
    out
}

/// Replace every occurrence of `pat` (non-empty literal) by `rep`.
pub fn replace_str(s: &[char], pat: &str, rep: &str) -> (r: Vec<char>)
    requires
        pat@.len() > 0,
    ensures
        r@ == replace_all(s@, pat@, rep@),
{
    let p = chars_of(pat);
    let q = chars_of(rep);
    replace_exec(s, p.as_slice(), q.as_slice())
}

} // verus!

verus! {

/// Decimal digits of `n` (no leading zeros; `"0"` for zero).
pub open spec fn decimal(n: nat) -> Seq<char>
    decreases n,
{
    if n < 10 {
        seq![digit_char(n)]
    } else {
        decimal(n / 10).push(digit_char(n % 10))
    }
}

/// The ASCII digit for `d < 10`.
pub open spec fn digit_char(d: nat) -> char {
    (d + 48) as char
}

/// `d` left-padded with `'0'` to at least `w` characters.
pub open spec fn zero_pad(d: Seq<char>, w: nat) -> Seq<char> {
    if d.len() >= w {
        d
    } else {
        Seq::new((w - d.len()) as nat, |_i: int| '0') + d
    }
}

fn digit(d: u64) -> (r: char)
    requires
        d < 10,
    ensures
        r == digit_char(d as nat),
{
    let b: u8 = (d + 48) as u8;
    b as char
}

/// Decimal rendering of `n`.
pub fn decimal_exec(n: u64) -> (r: Vec<char>)
    ensures
        r@ == decimal(n as nat),
    decreases n,
{
    if n < 10 {
        let mut v: Vec<char> = Vec::new();
        v.push(digit(n));
        v
    } else {
        let mut v = decimal_exec(n / 10);
        v.push(digit(n % 10));
        v
    }
}

/// Decimal rendering of `n`, zero-padded to width `w` (`format!("{n:0w$}")`).
pub fn padded_decimal(n: u64, w: usize) -> (r: Vec<char>)
    ensures
        r@ == zero_pad(decimal(n as nat), w as nat),
{
    let d = decimal_exec(n);
    if d.len() >= w {
        return d;
    }
    let mut out: Vec<char> = Vec::new();
    let k = w - d.len();
    let mut i: usize = 0;
    while i < k
        invariant
            0 <= i <= k,
            out@ == Seq::new(i as nat, |_i: int| '0'),
        decreases k - i,
    {
        out.push('0');
        i += 1;
        assert(out@ =~= Seq::new(i as nat, |_i: int| '0'));
    }
    push_all(&mut out, d.as_slice());
    out
}

} // verus!

verus! {

/// End of the content of the line starting at `i` (`str::lines`: a `\r` before the `\n` is
/// not part of the content).
pub open spec fn line_content_end(t: Seq<char>, i: int) -> int {
    let e = next_char(t, i, '\n');
    if e < t.len() && e > i && t[e - 1] == '\r' {
        e - 1
    } else {
        e
    }
}

/// Start of the line after the one starting at `i`.
pub open spec fn next_line_start(t: Seq<char>, i: int) -> int {
    next_char(t, i, '\n') + 1
}

/// Content of the line starting at `i`.
pub open spec fn line_at(t: Seq<char>, i: int) -> Seq<char> {
    t.subrange(i, line_content_end(t, i))
}

/// Start indices of the lines of `t` from `i` on (`str::lines`; no final empty line).
pub open spec fn line_starts_from(t: Seq<char>, i: int) -> Seq<int>
    decreases t.len() + 1 - i,
{
    if i < 0 || i >= t.len() {
        Seq::empty()
    } else {
        proof {
            lemma_next_char_bounds(t, i, '\n');
        }
        seq![i] + line_starts_from(t, next_line_start(t, i))
    }
}

pub proof fn lemma_line_bounds(t: Seq<char>, i: int)
    requires
        0 <= i < t.len(),
    ensures
        i <= line_content_end(t, i) <= next_char(t, i, '\n') <= t.len(),
        i < next_line_start(t, i) <= t.len() + 1,
        next_line_start(t, i) <= t.len() ==> t[next_line_start(t, i) - 1] == '\n',
{
    lemma_next_char_bounds(t, i, '\n');
}

/// Line starting at `i`: (content end, index of its newline or `t.len()`).
pub fn line_bounds(t: &[char], i: usize) -> (r: (usize, usize))
    requires
        i < t.len(),
    ensures
        r.0 as int == line_content_end(t@, i as int),
        r.1 as int == next_char(t@, i as int, '\n'),
        i <= r.0 <= r.1 <= t.len(),
{
    proof {
        lemma_line_bounds(t@, i as int);
    }
    let e = next_char_exec(t, i, '\n');
    let ce = if e < t.len() && e > i && t[e - 1] == '\r' { e - 1 } else { e };
    (ce, e)
}

/// ASCII-case-insensitive equality (`eq_ignore_ascii_case`).
pub open spec fn eq_ignore_case(a: Seq<char>, b: Seq<char>) -> bool {
    a.len() == b.len() && forall|i: int| 0 <= i < a.len() ==> upper_spec(#[trigger] a[i]) == upper_spec(b[i])
}

pub fn eq_ignore_case_exec(a: &[char], b: &[char]) -> (r: bool)
    ensures
        r == eq_ignore_case(a@, b@),
{
    if a.len() != b.len() {
        return false;
    }
    let mut i: usize = 0;
    while i < a.len()
        invariant
            a.len() == b.len(),
            0 <= i <= a.len(),
            forall|k: int| 0 <= k < i ==> upper_spec(#[trigger] a@[k]) == upper_spec(b@[k]),
        decreases a.len() - i,
    {
        if upper(a[i]) != upper(b[i]) {
            return false;
        }
        i += 1;
    }
    true
}

/// Index of the first whitespace character at or after `i` (or `t.len()`).
pub open spec fn next_ws(t: Seq<char>, i: int) -> int
    decreases t.len() - i,
{
    if i < 0 || i >= t.len() {
        t.len() as int
    } else if is_ws(t[i]) {
        i
    } else {
        next_ws(t, i + 1)
    }
}

pub proof fn lemma_next_ws_bounds(t: Seq<char>, i: int)
    requires
        0 <= i <= t.len(),
    ensures
        i <= next_ws(t, i) <= t.len(),
        forall|k: int| i <= k < next_ws(t, i) ==> !is_ws(#[trigger] t[k]),
        next_ws(t, i) < t.len() ==> is_ws(t[next_ws(t, i)]),
    decreases t.len() - i,
{
    if i < t.len() && !is_ws(t[i]) {
        lemma_next_ws_bounds(t, i + 1);
    }
}

pub fn next_ws_exec(t: &[char], i: usize) -> (r: usize)
    requires
        i <= t.len(),
    ensures
        r as int == next_ws(t@, i as int),
        i <= r <= t.len(),
{
    proof {
        lemma_next_ws_bounds(t@, i as int);
    }
    let mut k = i;
    while k < t.len() && !ws(t[k])
        invariant
            i <= k <= t.len(),
            next_ws(t@, i as int) == next_ws(t@, k as int),
        decreases t.len() - k,
    {
        k += 1;
    }
    k
}

/// The whitespace-separated token found after `i` (`split_whitespace`): `(start, end)`.
pub open spec fn token_after(t: Seq<char>, i: int) -> Option<(int, int)> {
    let s = skip_ws(t, i);
    if s >= t.len() {
        None
    } else {
        Some((s, next_ws(t, s)))
    }
}

pub fn token_after_exec(t: &[char], i: usize) -> (r: Option<(usize, usize)>)
    requires
        i <= t.len(),
    ensures
        match r {
            Some((s, e)) => token_after(t@, i as int) == Some((s as int, e as int)) && i <= s
                < e <= t.len(),
            None => token_after(t@, i as int) is None,
        },
{
    let s = skip_ws_exec(t, i);
    proof {
        lemma_skip_ws_bounds(t@, i as int);
    }
    if s >= t.len() {
        return None;
    }
    assert(!is_ws(t@[s as int]));
    assert(next_ws(t@, s as int) == next_ws(t@, s + 1));
    proof {
        lemma_next_ws_bounds(t@, s + 1);
    }
    let e = next_ws_exec(t, s);
    Some((s, e))
}

} // verus!

verus! {

/// Number of UTF-8 bytes of `c`.
pub open spec fn utf8_width(c: char) -> int {
    vstd::utf8::encode_scalar(c as u32).len() as int
}

pub fn char_width(c: char) -> (r: usize)
    ensures
        r as int == utf8_width(c),
        1 <= r <= 4,
{
    proof {
        vstd::utf8::char_is_scalar(c);
    }
    let v: u32 = c as u32;
    if v <= 0x7f {
        1
    } else if v <= 0x7ff {
        2
    } else if v <= 0xffff {
        3
    } else {
        4
    }
}

pub proof fn lemma_encode_concat(a: Seq<char>, b: Seq<char>)
    ensures
        vstd::utf8::encode_utf8(a + b) == vstd::utf8::encode_utf8(a) + vstd::utf8::encode_utf8(b),
    decreases a.len(),
{
    if a.len() == 0 {
        assert(a + b =~= b);
        assert(vstd::utf8::encode_utf8(a) =~= Seq::<u8>::empty());
        assert(Seq::<u8>::empty() + vstd::utf8::encode_utf8(b) =~= vstd::utf8::encode_utf8(b));
    } else {
        lemma_encode_concat(a.drop_first(), b);
        assert((a + b).drop_first() =~= a.drop_first() + b);
        assert((a + b)[0] == a[0]);
    }
}

/// Byte offset of character index `i` in the UTF-8 encoding of `t`.
pub open spec fn byte_offset(t: Seq<char>, i: int) -> int {
    vstd::utf8::encode_utf8(t.take(i)).len() as int
}

pub proof fn lemma_byte_offset_step(t: Seq<char>, i: int)
    requires
        0 <= i < t.len(),
    ensures
        byte_offset(t, i + 1) == byte_offset(t, i) + utf8_width(t[i]),
{
    assert(t.take(i + 1) =~= t.take(i) + seq![t[i]]);
    lemma_encode_concat(t.take(i), seq![t[i]]);
    assert(seq![t[i]].drop_first() =~= Seq::<char>::empty());
    assert(vstd::utf8::encode_utf8(seq![t[i]]) =~= vstd::utf8::encode_scalar(t[i] as u32)
        + vstd::utf8::encode_utf8(Seq::<char>::empty()));
}

pub proof fn lemma_byte_offset_bound(t: Seq<char>, i: int)
    requires
        0 <= i <= t.len(),
    ensures
        byte_offset(t, i) <= vstd::utf8::encode_utf8(t).len(),
{
    assert(t =~= t.take(i) + t.skip(i));
    lemma_encode_concat(t.take(i), t.skip(i));
}

/// The byte offset of character index `i` falls inside no character: it maps back to `i`.
pub proof fn lemma_char_at_byte_offset(t: Seq<char>, i: int)
    requires
        0 <= i <= t.len(),
    ensures
        char_at_byte(t, byte_offset(t, i)) == i,
    decreases t.len(),
{
    if i == 0 {
        assert(t.take(0) =~= Seq::<char>::empty());
        assert(vstd::utf8::encode_utf8(Seq::<char>::empty()).len() == 0);
    } else {
        let d = t.drop_first();
        assert(t.take(i)[0] == t[0]);
        assert(t.take(i).drop_first() =~= d.take(i - 1));
        assert(byte_offset(t, i) == utf8_width(t[0]) + byte_offset(d, i - 1));
        lemma_char_at_byte_offset(d, i - 1);
    }
}

/// Byte offsets grow strictly with the character index.
pub proof fn lemma_byte_offset_increases(t: Seq<char>, a: int, b: int)
    requires
        0 <= a < b <= t.len(),
    ensures
        byte_offset(t, a) < byte_offset(t, b),
    decreases b - a,
{
    lemma_byte_offset_step(t, b - 1);
    if a < b - 1 {
        lemma_byte_offset_increases(t, a, b - 1);
    }
}

/// Byte offsets of every character index `0..=t.len()` of the text `s` (whose characters are `t`).
pub fn byte_offsets(s: &str, t: &[char]) -> (r: Vec<u64>)
    requires
        t@ == s@,
    ensures
        r@.len() == t@.len() + 1,
        forall|i: int| 0 <= i <= t@.len() ==> r@[i] == byte_offset(t@, i),
{
    let total = s.as_bytes().len();
    assert(total == vstd::utf8::encode_utf8(t@).len());
    let mut r: Vec<u64> = Vec::new();
    let mut acc: usize = 0;
    let mut i: usize = 0;
    assert(t@.take(0) =~= Seq::<char>::empty());
    assert(vstd::utf8::encode_utf8(Seq::<char>::empty()).len() == 0);
    while i < t.len()
        invariant
            0 <= i <= t.len(),
            r@.len() == i,
            acc as int == byte_offset(t@, i as int),
            forall|k: int| 0 <= k < i ==> r@[k] == byte_offset(t@, k),
            total == vstd::utf8::encode_utf8(t@).len(),
        decreases t.len() - i,
    {
        r.push(acc as u64);
        proof {
            lemma_byte_offset_step(t@, i as int);
            lemma_byte_offset_bound(t@, i + 1);
        }
        acc = acc + char_width(t[i]);
        i += 1;
    }
    r.push(acc as u64);
    r
}

/// Index of the character whose UTF-8 bytes contain byte `b` (or `t.len()` past the end).
pub open spec fn char_at_byte(t: Seq<char>, b: int) -> int
    decreases t.len(),
{
    if t.len() == 0 || b < utf8_width(t[0]) {
        0
    } else {
        1 + char_at_byte(t.drop_first(), b - utf8_width(t[0]))
    }
}

pub fn char_at_byte_exec(t: &[char], b: usize) -> (r: usize)
    ensures
        r as int == char_at_byte(t@, b as int),
        r <= t.len(),
{
    let mut i: usize = 0;
    let mut acc: usize = 0;
    assert(t@.skip(0) == t@);
    while i < t.len() && acc <= b && char_width(t[i]) <= b - acc
        invariant
            0 <= i <= t.len(),
            acc <= b || i == 0,
            char_at_byte(t@, b as int) == i + char_at_byte(t@.skip(i as int), b - acc),
        decreases t.len() - i,
    {
        assert(t@.skip(i as int)[0] == t@[i as int]);
        assert(t@.skip(i as int).drop_first() == t@.skip(i + 1));
        acc = acc + char_width(t[i]);
        i += 1;
    }
    if i < t.len() {
        assert(t@.skip(i as int)[0] == t@[i as int]);
    }
    i
}

} // verus!
