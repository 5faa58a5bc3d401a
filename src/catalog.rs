//! The built-in catalog of named subsets and the resolution of requested
//! subset names into range tokens.

use crate::ranges::{tokens_selection, views};
use vstd::prelude::*;
use vstd::string::*;

verus! {

/// The characters with Unicode's White_Space property.
pub open spec fn white_space(c: char) -> bool {
    ('\u{9}' <= c && c <= '\u{d}') || c == ' ' || c == '\u{85}' || c == '\u{a0}' || c == '\u{1680}'
        || ('\u{2000}' <= c && c <= '\u{200a}') || c == '\u{2028}' || c == '\u{2029}' || c
        == '\u{202f}' || c == '\u{205f}' || c == '\u{3000}'
}

/// Whether a character has the White_Space property, as `char::is_whitespace`
/// answers.
pub fn is_white_space(c: char) -> (r: bool)
    ensures
        r == white_space(c),
{
    ('\u{9}' <= c && c <= '\u{d}') || c == ' ' || c == '\u{85}' || c == '\u{a0}' || c == '\u{1680}'
        || ('\u{2000}' <= c && c <= '\u{200a}') || c == '\u{2028}' || c == '\u{2029}' || c
        == '\u{202f}' || c == '\u{205f}' || c == '\u{3000}'
}

pub open spec fn trim_start(s: Seq<char>) -> Seq<char>
    decreases s.len(),
{
    if s.len() > 0 && white_space(s[0]) {
        trim_start(s.drop_first())
    } else {
        s
    }
}

pub open spec fn trim_end(s: Seq<char>) -> Seq<char>
    decreases s.len(),
{
    if s.len() > 0 && white_space(s.last()) {
        trim_end(s.drop_last())
    } else {
        s
    }
}

/// The text without white space at either end.
pub open spec fn trimmed(s: Seq<char>) -> Seq<char> {
    trim_end(trim_start(s))
}

/// The range tokens of each named subset.
pub open spec fn catalog(name: Seq<char>) -> Option<Seq<Seq<char>>> {
    if name == "latin"@ {
        Some(seq![
            "U+0-FF"@, "U+131"@, "U+152"@, "U+153"@, "U+2BB"@, "U+2BC"@, "U+2C6"@, "U+2DA"@,
            "U+2DC"@, "U+300"@, "U+301"@, "U+303"@, "U+304"@, "U+308"@, "U+309"@, "U+323"@,
            "U+329"@, "U+2000-206F"@, "U+2074"@, "U+20AC"@, "U+2122"@, "U+2190-2193"@,
            "U+2212"@, "U+2215"@, "U+FEFF"@, "U+FFFD"@,
        ])
    } else if name == "latin-ext"@ {
        Some(seq![
            "U+0100-02AF"@, "U+0300-0301"@, "U+0303-0304"@, "U+0308-0309"@, "U+0323"@,
            "U+0329"@, "U+1E00-1EFF"@, "U+2020"@, "U+20A0-20AB"@, "U+20AD-20CF"@, "U+2113"@,
            "U+2C60-2C7F"@, "U+A720-A7FF"@,
        ])
    } else if name == "greek"@ {
        Some(seq![
            "U+0370-03FF"@,
        ])
    } else if name == "greek-ext"@ {
        Some(seq![
            "U+1F00-1FFF"@,
        ])
    } else if name == "cyrillic"@ {
        Some(seq![
            "U+0301"@, "U+0400-045F"@, "U+0490-0491"@, "U+04B0-04B1"@, "U+2116"@,
        ])
    } else if name == "cyrillic-ext"@ {
        Some(seq![
            "U+0460-052F"@, "U+1C80-1C88"@, "U+20B4"@, "U+2DE0-2DFF"@, "U+A640-A69F"@,
            "U+FE2E-FE2F"@,
        ])
    } else if name == "vietnamese"@ {
        Some(seq![
            "U+0102-0103"@, "U+0110-0111"@, "U+0128-0129"@, "U+0168-0169"@, "U+01A0-01A1"@,
            "U+01AF-01B0"@, "U+0300-0301"@, "U+0303-0304"@, "U+0308-0309"@, "U+0323"@,
            "U+0329"@, "U+1EA0-1EF9"@, "U+20AB"@,
        ])
    } else {
        None
    }
}

/// The tokens that one requested name contributes: none for an unknown name.
pub open spec fn name_tokens(name: Seq<char>) -> Seq<Seq<char>> {
    match catalog(trimmed(name)) {
        Some(ts) => ts,
        None => seq![],
    }
}

/// The tokens of all requested names, concatenated in request order.
pub open spec fn resolved(names: Seq<Seq<char>>) -> Seq<Seq<char>>
    decreases names.len(),
{
    if names.len() == 0 {
        seq![]
    } else {
        resolved(names.drop_last()) + name_tokens(names.last())
    }
}

pub(crate) fn same_text(a: &str, b: &str) -> (r: bool)
    ensures
        r == (a@ == b@),
{
    let n = a.unicode_len();
    if n != b.unicode_len() {
        return false;
    }
    let mut i: usize = 0;
    while i < n
        invariant
            n == a@.len() == b@.len(),
            i <= n,
            forall|j: int| 0 <= j < i ==> a@[j] == b@[j],
        decreases n - i,
    {
        if a.get_char(i) != b.get_char(i) {
            return false;
        }
        i = i + 1;
    }
    assert(a@ =~= b@);
    true
}

/// The text without white space at either end.
pub fn trim(s: &str) -> (r: &str)
    ensures
        r@ == trimmed(s@),
{
    let n = s.unicode_len();
    let mut i: usize = 0;
    assert(s@.subrange(0, n as int) =~= s@);
    while i < n && is_white_space(s.get_char(i))
        invariant
            i <= n == s@.len(),
            trim_start(s@) == trim_start(s@.subrange(i as int, n as int)),
        decreases n - i,
    {
        assert(s@.subrange(i as int, n as int).drop_first() =~= s@.subrange(i + 1, n as int));
        i = i + 1;
    }
    assert(trim_start(s@) == s@.subrange(i as int, n as int));
    let mut j: usize = n;
    while j > i && is_white_space(s.get_char(j - 1))
        invariant
            i <= j <= n == s@.len(),
            trim_end(s@.subrange(i as int, n as int)) == trim_end(s@.subrange(i as int, j as int)),
        decreases j,
    {
        assert(s@.subrange(i as int, j as int).drop_last() =~= s@.subrange(i as int, j - 1));
        j = j - 1;
    }
    s.substring_char(i, j)
}

/// The range tokens of the subset called `name`, if the catalog has it.
/// Names are matched exactly.
pub fn subset_tokens(name: &str) -> (r: Option<Vec<String>>)
    ensures
        r is Some <==> catalog(name@) is Some,
        r matches Some(v) ==> views(v@) == catalog(name@)->0,
{
    let r =
        if same_text(name, "latin") {
            Some(vec![
                String::from_str("U+0-FF"), String::from_str("U+131"), String::from_str("U+152"),
                String::from_str("U+153"), String::from_str("U+2BB"), String::from_str("U+2BC"),
                String::from_str("U+2C6"), String::from_str("U+2DA"), String::from_str("U+2DC"),
                String::from_str("U+300"), String::from_str("U+301"), String::from_str("U+303"),
                String::from_str("U+304"), String::from_str("U+308"), String::from_str("U+309"),
                String::from_str("U+323"), String::from_str("U+329"),
                String::from_str("U+2000-206F"), String::from_str("U+2074"),
                String::from_str("U+20AC"), String::from_str("U+2122"),
                String::from_str("U+2190-2193"), String::from_str("U+2212"),
                String::from_str("U+2215"), String::from_str("U+FEFF"), String::from_str("U+FFFD"),
            ])
        } else if same_text(name, "latin-ext") {
            Some(vec![
                String::from_str("U+0100-02AF"), String::from_str("U+0300-0301"),
                String::from_str("U+0303-0304"), String::from_str("U+0308-0309"),
                String::from_str("U+0323"), String::from_str("U+0329"),
                String::from_str("U+1E00-1EFF"), String::from_str("U+2020"),
                String::from_str("U+20A0-20AB"), String::from_str("U+20AD-20CF"),
                String::from_str("U+2113"), String::from_str("U+2C60-2C7F"),
                String::from_str("U+A720-A7FF"),
            ])
        } else if same_text(name, "greek") {
            Some(vec![
                String::from_str("U+0370-03FF"),
            ])
        } else if same_text(name, "greek-ext") {
            Some(vec![
                String::from_str("U+1F00-1FFF"),
            ])
        } else if same_text(name, "cyrillic") {
            Some(vec![
                String::from_str("U+0301"), String::from_str("U+0400-045F"),
                String::from_str("U+0490-0491"), String::from_str("U+04B0-04B1"),
                String::from_str("U+2116"),
            ])
        } else if same_text(name, "cyrillic-ext") {
            Some(vec![
                String::from_str("U+0460-052F"), String::from_str("U+1C80-1C88"),
                String::from_str("U+20B4"), String::from_str("U+2DE0-2DFF"),
                String::from_str("U+A640-A69F"), String::from_str("U+FE2E-FE2F"),
            ])
        } else if same_text(name, "vietnamese") {
            Some(vec![
                String::from_str("U+0102-0103"), String::from_str("U+0110-0111"),
                String::from_str("U+0128-0129"), String::from_str("U+0168-0169"),
                String::from_str("U+01A0-01A1"), String::from_str("U+01AF-01B0"),
                String::from_str("U+0300-0301"), String::from_str("U+0303-0304"),
                String::from_str("U+0308-0309"), String::from_str("U+0323"),
                String::from_str("U+0329"), String::from_str("U+1EA0-1EF9"),
                String::from_str("U+20AB"),
            ])
        } else {
            None
        };
    proof {
        if r is Some {
            assert(views(r->0@) =~= catalog(name@)->0);
        }
    }
    r
}

/// Resolves requested subset names into the concatenation of their range
/// tokens, in request order. Each name is trimmed first; unknown names
/// contribute nothing.
pub fn resolve(names: &[String]) -> (r: Vec<String>)
    ensures
        views(r@) == resolved(views(names@)),
{
    let mut r: Vec<String> = Vec::new();
    let mut i: usize = 0;
    while i < names.len()
        invariant
            i <= names@.len(),
            views(r@) == resolved(views(names@).take(i as int)),
        decreases names@.len() - i,
    {
        let ghost before = r@;
        assert(views(names@).take(i + 1).drop_last() =~= views(names@).take(i as int));
        if let Some(ts) = subset_tokens(trim(names[i].as_str())) {
            let mut k: usize = 0;
            while k < ts.len()
                invariant
                    k <= ts@.len(),
                    r@ == before + ts@.take(k as int),
                decreases ts@.len() - k,
            {
                r.push(ts[k].clone());
                assert(r@ =~= before + ts@.take(k + 1));
                k = k + 1;
            }
            assert(r@ =~= before + ts@);
            assert(views(r@) =~= views(before) + views(ts@));
        } else {
            assert(views(r@) =~= views(before) + seq![]);
        }
        i = i + 1;
    }
    assert(views(names@).take(names@.len() as int) =~= views(names@));
    r
}

/// Resolving two lists of names one after the other gives the tokens of
/// the first list followed by those of the second.
pub proof fn lemma_resolved_concat(a: Seq<Seq<char>>, b: Seq<Seq<char>>)
    ensures
        resolved(a + b) == resolved(a) + resolved(b),
    decreases b.len(),
{
    if b.len() == 0 {
        assert(a + b =~= a);
        assert(resolved(a) + resolved(b) =~= resolved(a));
    } else {
        lemma_resolved_concat(a, b.drop_last());
        assert((a + b).drop_last() =~= a + b.drop_last());
        assert((a + b).last() == b.last());
        assert(resolved(a + b) =~= resolved(a) + resolved(b));
    }
}

proof fn lemma_selection_concat(x: Seq<Seq<char>>, y: Seq<Seq<char>>)
    ensures
        tokens_selection(x + y) == tokens_selection(x).union(tokens_selection(y)),
{
    let xy = x + y;
    assert forall|cp: int| tokens_selection(xy).contains(cp) implies tokens_selection(x).union(
        tokens_selection(y),
    ).contains(cp) by {
        let j = choose|j: int| 0 <= j < xy.len() && #[trigger] crate::ranges::token_codepoints(
            xy[j],
        ).contains(cp);
        if j < x.len() {
            assert(xy[j] == x[j]);
        } else {
            assert(xy[j] == y[j - x.len()]);
        }
    }
    assert forall|cp: int| tokens_selection(x).union(tokens_selection(y)).contains(cp) implies tokens_selection(xy).contains(cp) by {
        if tokens_selection(x).contains(cp) {
            let j = choose|j: int| 0 <= j < x.len() && #[trigger] crate::ranges::token_codepoints(
                x[j],
            ).contains(cp);
            assert(xy[j] == x[j]);
        } else {
            let j = choose|j: int| 0 <= j < y.len() && #[trigger] crate::ranges::token_codepoints(
                y[j],
            ).contains(cp);
            assert(xy[j + x.len()] == y[j]);
        }
    }
    assert(tokens_selection(xy) =~= tokens_selection(x).union(tokens_selection(y)));
}

/// Asking for the same names twice selects the same codepoints as asking
/// for them once: the selection is a set.
pub proof fn lemma_repeated_request(names: Seq<Seq<char>>)
    ensures
        resolved(names + names) == resolved(names) + resolved(names),
        tokens_selection(resolved(names + names)) == tokens_selection(resolved(names)),
{
    lemma_resolved_concat(names, names);
    lemma_selection_concat(resolved(names), resolved(names));
    assert(tokens_selection(resolved(names)).union(tokens_selection(resolved(names)))
        =~= tokens_selection(resolved(names)));
}

/// A name that the catalog does not hold, once trimmed, adds no token: the
/// request resolves as if it were absent.
pub proof fn lemma_unknown_name(names: Seq<Seq<char>>, name: Seq<char>)
    requires
        catalog(trimmed(name)) is None,
    ensures
        resolved(names.push(name)) == resolved(names),
{
    assert(names.push(name).drop_last() =~= names);
    assert(resolved(names.push(name)) =~= resolved(names));
}

/// Every token of a requested name that the catalog holds is among the
/// resolved tokens.
pub proof fn lemma_known_name(names: Seq<Seq<char>>, i: int, k: int)
    requires
        0 <= i < names.len(),
        catalog(trimmed(names[i])) matches Some(ts) && 0 <= k < ts.len(),
    ensures
        resolved(names).contains(catalog(trimmed(names[i]))->0[k]),
    decreases names.len(),
{
    let ts = catalog(trimmed(names[i]))->0;
    let prev = resolved(names.drop_last());
    if i == names.len() - 1 {
        assert(resolved(names)[prev.len() + k] == ts[k]);
    } else {
        assert(names.drop_last()[i] == names[i]);
        lemma_known_name(names.drop_last(), i, k);
        let j = choose|j: int| 0 <= j < prev.len() && prev[j] == ts[k];
        assert(resolved(names)[j] == ts[k]);
    }
}

} // verus!
