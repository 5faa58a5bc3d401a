//! The subsetting backends: output naming, the arguments handed to the
//! external tool, and what the in-process backend makes of a font.

use crate::catalog::same_text;
use crate::ranges::{is_scalar, scalar_char, selection, views, UnicodeValue};
use vstd::prelude::*;
use vstd::string::*;

verus! {

/// The output container format.
#[derive(Clone, Copy, Debug, PartialEq, Eq, Structural)]
pub enum Flavor {
    Woff,
    Woff2,
}

/// The extension, and the name, of a flavor.
pub open spec fn flavor_name(f: Flavor) -> Seq<char> {
    match f {
        Flavor::Woff => "woff"@,
        Flavor::Woff2 => "woff2"@,
    }
}

impl Flavor {
    /// The flavor's name, which is also its file extension.
    pub fn to_string(&self) -> (r: String)
        ensures
            r@ == flavor_name(*self),
    {
        match self {
            Flavor::Woff => String::from_str("woff"),
            Flavor::Woff2 => String::from_str("woff2"),
        }
    }
}

impl Default for Flavor {
    fn default() -> (r: Flavor)
        ensures
            r == Flavor::Woff2,
    {
        Flavor::Woff2
    }
}

/// Which backend subsets the fonts of a run.
#[derive(Clone, Copy, Debug, PartialEq, Eq, Structural)]
pub enum BackendChoice {
    /// Subsets in this process and compresses to WOFF2.
    InProcess,
    /// Runs an external subsetting executable per file.
    External,
}

/// Why a file produced no output.
#[derive(Clone, Copy, Debug, PartialEq, Eq, Structural)]
pub enum SkipReason {
    /// The input's bytes are no font.
    MalformedInput,
    /// The subsetting engine reported failure.
    EngineDeclined,
    /// The compressor produced nothing.
    CompressionDeclined,
}

/// What became of one file.
#[derive(Clone, Copy, Debug, PartialEq, Eq, Structural)]
pub enum Outcome {
    Written,
    Skipped(SkipReason),
    /// A failure that ends the run.
    Fatal,
}

/// The position of the last `.` of a text, or -1.
pub open spec fn last_dot(s: Seq<char>) -> int
    decreases s.len(),
{
    if s.len() == 0 {
        -1
    } else if s.last() == '.' {
        s.len() - 1
    } else {
        last_dot(s.drop_last())
    }
}

/// The extension of a file name: what follows its last `.`, where that dot
/// does not start the name.
pub open spec fn extension(name: Seq<char>) -> Option<Seq<char>> {
    if last_dot(name) <= 0 {
        None
    } else {
        Some(name.skip(last_dot(name) + 1))
    }
}

/// A file name without its extension and the dot before it.
pub open spec fn stem(name: Seq<char>) -> Seq<char> {
    if last_dot(name) <= 0 {
        name
    } else {
        name.take(last_dot(name))
    }
}

/// The extensions of font files.
pub open spec fn is_font_extension(e: Seq<char>) -> bool {
    e == "ttf"@ || e == "otf"@ || e == "woff"@ || e == "woff2"@
}

fn find_last_dot(s: &str) -> (r: Option<usize>)
    ensures
        r matches Some(k) ==> k as int == last_dot(s@) && k < s@.len(),
        r is None ==> last_dot(s@) == -1,
{
    let n = s.unicode_len();
    let mut i: usize = n;
    assert(s@.take(n as int) =~= s@);
    while i > 0 && s.get_char(i - 1) != '.'
        invariant
            i <= n == s@.len(),
            last_dot(s@) == last_dot(s@.take(i as int)),
        decreases i,
    {
        assert(s@.take(i as int).drop_last() =~= s@.take(i - 1));
        i = i - 1;
    }
    if i == 0 {
        assert(s@.take(0) =~= Seq::<char>::empty());
        None
    } else {
        assert(s@.take(i as int).last() == s@[i - 1]);
        Some(i - 1)
    }
}

/// Whether a file name has a font's extension: `ttf`, `otf`, `woff` or
/// `woff2`.
pub fn is_font(file_name: &str) -> (r: bool)
    ensures
        r == (extension(file_name@) matches Some(e) && is_font_extension(e)),
{
    proof {
        reveal_strlit("ttf");
        reveal_strlit("otf");
        reveal_strlit("woff");
        reveal_strlit("woff2");
    }
    match find_last_dot(file_name) {
        Some(k) if k > 0 => {
            let n = file_name.unicode_len();
            let e = file_name.substring_char(k + 1, n);
            assert(e@ =~= file_name@.skip(k + 1));
            same_text(e, "ttf") || same_text(e, "otf") || same_text(e, "woff") || same_text(
                e,
                "woff2",
            )
        },
        _ => false,
    }
}

/// The name of a file's output: its stem, a dot, and the new extension.
pub open spec fn renamed(name: Seq<char>, ext: Seq<char>) -> Seq<char> {
    stem(name) + seq!['.'] + ext
}

/// Replaces a file name's extension, or adds one where it has none.
pub fn with_extension(file_name: &str, ext: &str) -> (r: String)
    ensures
        r@ == renamed(file_name@, ext@),
{
    proof {
        reveal_strlit(".");
    }
    let stem_end = match find_last_dot(file_name) {
        Some(k) if k > 0 => k,
        _ => file_name.unicode_len(),
    };
    let mut r = String::from_str(file_name.substring_char(0, stem_end));
    assert(r@ == stem(file_name@));
    r.append(".");
    r.append(ext);
    r
}

/// Where an input file is read from.
pub open spec fn input_path_of(file: Seq<char>) -> Seq<char> {
    "input/"@ + file
}

/// Where a file's output is written.
pub open spec fn output_path_of(file: Seq<char>, f: Flavor) -> Seq<char> {
    "output/"@ + renamed(file, flavor_name(f))
}

/// The path, relative to the working directory, of an input file.
pub fn input_path(file: &str) -> (r: String)
    ensures
        r@ == input_path_of(file@),
{
    let mut r = String::from_str("input/");
    r.append(file);
    r
}

/// The path, relative to the working directory, of a file's output in the
/// given flavor.
pub fn output_path(file: &str, flavor: Flavor) -> (r: String)
    ensures
        r@ == output_path_of(file@, flavor),
{
    let mut r = String::from_str("output/");
    let ext = flavor.to_string();
    let name = with_extension(file, ext.as_str());
    r.append(name.as_str());
    r
}

/// Tokens joined by commas.
pub open spec fn comma_joined(ts: Seq<Seq<char>>) -> Seq<char>
    decreases ts.len(),
{
    if ts.len() == 0 {
        seq![]
    } else if ts.len() == 1 {
        ts[0]
    } else {
        comma_joined(ts.drop_last()) + seq![','] + ts.last()
    }
}

/// The arguments of the external subsetting tool for one file.
pub open spec fn external_args_of(
    input: Seq<char>,
    tokens: Seq<Seq<char>>,
    output: Seq<char>,
) -> Seq<Seq<char>> {
    seq![
        input,
        "--unicodes="@ + comma_joined(tokens),
        "--output-file="@ + output,
        "--flavor=woff2"@,
    ]
}

/// The arguments for the external tool: the input path, the tokens to keep,
/// the output path, and the container it is asked for, which is WOFF2
/// whatever flavor names the output file.
pub fn external_arguments(input: &str, tokens: &[String], output: &str) -> (r: Vec<String>)
    ensures
        views(r@) == external_args_of(input@, views(tokens@), output@),
{
    proof {
        reveal_strlit(",");
    }
    let mut unicodes = String::from_str("--unicodes=");
    let ghost head = unicodes@;
    let mut i: usize = 0;
    while i < tokens.len()
        invariant
            i <= tokens@.len(),
            head == "--unicodes="@,
            unicodes@ == head + comma_joined(views(tokens@).take(i as int)),
        decreases tokens@.len() - i,
    {
        let ghost ts = views(tokens@);
        let ghost prev = unicodes@;
        assert(ts.take(i + 1).drop_last() =~= ts.take(i as int));
        assert(ts[i as int] == tokens@[i as int]@);
        assert(ts.take(i + 1).last() == ts[i as int]);
        if i > 0 {
            unicodes.append(",");
            proof {
                reveal_strlit(",");
                assert(","@ =~= seq![',']);
            }
            assert(unicodes@ =~= prev + seq![',']);
            unicodes.append(tokens[i].as_str());
            assert(comma_joined(ts.take(i + 1)) == comma_joined(ts.take(i as int)) + seq![',']
                + ts[i as int]);
            assert(unicodes@ =~= prev + seq![','] + ts[i as int]);
        } else {
            unicodes.append(tokens[i].as_str());
            assert(ts.take(1).len() == 1);
            assert(comma_joined(ts.take(1)) == ts.take(1)[0]);
            assert(comma_joined(ts.take(0)) =~= Seq::<char>::empty());
            assert(unicodes@ =~= prev + ts[0]);
        }
        assert(unicodes@ =~= head + comma_joined(ts.take(i + 1)));
        i = i + 1;
    }
    assert(views(tokens@).take(tokens@.len() as int) =~= views(tokens@));
    let mut out = String::from_str("--output-file=");
    out.append(output);
    let r = vec![String::from_str(input), unicodes, out, String::from_str("--flavor=woff2")];
    assert(views(r@) =~= external_args_of(input@, views(tokens@), output@));
    r
}

/// The codepoints of a list of characters.
pub open spec fn chars_set(s: Seq<char>) -> Set<int> {
    Set::new(|cp: int| exists|i: int| 0 <= i < s.len() && s[i] as int == cp)
}

proof fn lemma_chars_set_push(s: Seq<char>, c: char)
    ensures
        chars_set(s.push(c)) == chars_set(s).insert(c as int),
{
    let t = s.push(c);
    assert forall|cp: int| chars_set(t).contains(cp) implies chars_set(s).insert(c as int).contains(
        cp,
    ) by {
        let i = choose|i: int| 0 <= i < t.len() && t[i] as int == cp;
        if i < s.len() {
            assert(s[i] == t[i]);
        }
    }
    assert forall|cp: int| chars_set(s).insert(c as int).contains(cp) implies chars_set(t).contains(
        cp,
    ) by {
        if cp == c as int {
            assert(t[s.len() as int] == c);
        } else {
            let i = choose|i: int| 0 <= i < s.len() && s[i] as int == cp;
            assert(t[i] == s[i]);
        }
    }
    assert(chars_set(t) =~= chars_set(s).insert(c as int));
}

proof fn lemma_selection_push(vs: Seq<UnicodeValue>, i: int)
    requires
        0 <= i < vs.len(),
    ensures
        selection(vs.take(i + 1)) == selection(vs.take(i)).union(vs[i].codepoints()),
{
    let a = vs.take(i + 1);
    let b = vs.take(i);
    assert forall|cp: int| selection(a).contains(cp) implies selection(b).union(
        vs[i].codepoints(),
    ).contains(cp) by {
        let j = choose|j: int| 0 <= j < a.len() && #[trigger] a[j].codepoints().contains(cp);
        if j < i {
            assert(b[j] == a[j]);
        }
    }
    assert forall|cp: int| selection(b).union(vs[i].codepoints()).contains(cp) implies selection(
        a,
    ).contains(cp) by {
        if selection(b).contains(cp) {
            let j = choose|j: int| 0 <= j < b.len() && #[trigger] b[j].codepoints().contains(cp);
            assert(a[j] == b[j]);
        } else {
            assert(a[i] == vs[i]);
        }
    }
    assert(selection(a) =~= selection(b).union(vs[i].codepoints()));
}

/// Every codepoint that the values select, as characters.
pub fn selection_chars(vs: &[UnicodeValue]) -> (r: Vec<char>)
    ensures
        chars_set(r@) == selection(vs@),
{
    let mut r: Vec<char> = Vec::new();
    let mut i: usize = 0;
    assert(chars_set(r@) =~= selection(vs@.take(0)));
    while i < vs.len()
        invariant
            i <= vs@.len(),
            chars_set(r@) == selection(vs@.take(i as int)),
        decreases vs@.len() - i,
    {
        let (lo, hi) = match vs[i] {
            UnicodeValue::Single(c) => (c as u32, c as u32),
            UnicodeValue::Range(a, b) => (a as u32, b as u32),
        };
        let ghost before = selection(vs@.take(i as int));
        let mut cp: u32 = lo;
        assert(chars_set(r@) =~= before.union(
            Set::new(|x: int| is_scalar(x) && lo <= x < cp),
        ));
        while cp <= hi
            invariant
                i < vs@.len(),
                lo == vs@[i as int].lo(),
                hi == vs@[i as int].hi(),
                hi <= 0x10FFFF,
                lo <= cp,
                cp <= hi + 1 || cp == lo,
                chars_set(r@) == before.union(Set::new(|x: int| is_scalar(x) && lo <= x < cp)),
            decreases hi + 1 - cp,
        {
            let ghost old_r = r@;
            match scalar_char(cp) {
                Some(c) => {
                    r.push(c);
                    proof {
                        lemma_chars_set_push(old_r, c);
                    }
                },
                None => {},
            }
            assert(chars_set(r@) =~= before.union(
                Set::new(|x: int| is_scalar(x) && lo <= x < cp + 1),
            ));
            cp = cp + 1;
        }
        proof {
            lemma_selection_push(vs@, i as int);
            assert(Set::new(|x: int| is_scalar(x) && lo <= x < cp) =~= vs@[i as int].codepoints());
        }
        i = i + 1;
    }
    assert(vs@.take(vs@.len() as int) =~= vs@);
    r
}

/// The Brotli quality at which the in-process backend compresses its
/// subsets to WOFF2, with table transforms and empty metadata.
pub const COMPRESSION_QUALITY: usize = 8;

/// The contents of optional bytes.
pub open spec fn bytes_view(o: Option<Vec<u8>>) -> Option<Seq<u8>> {
    match o {
        Some(v) => Some(v@),
        None => None,
    }
}

/// What the in-process backend hands to the compressor for an input, or why
/// it hands nothing: given whether the input parses as a font and the
/// subsetting engine's result on it.
pub open spec fn in_process_subset_result(parses: bool, subsetted: Option<Seq<u8>>) -> Result<
    Seq<u8>,
    SkipReason,
> {
    if !parses {
        Err(SkipReason::MalformedInput)
    } else {
        match subsetted {
            None => Err(SkipReason::EngineDeclined),
            Some(f) => Ok(f),
        }
    }
}

/// The in-process backend's first decision for one file, from whether its
/// input parses as a font and what the subsetting engine made of it: the
/// input must be a font and the engine must have produced a subset, which is
/// then what gets compressed. The caller judges the input with a font parser
/// (ttf-parser), not with the engine's own face construction, so a font that
/// only the engine would accept is skipped as malformed.
pub fn in_process_subset(parses: bool, subsetted: Option<Vec<u8>>) -> (r: Result<
    Vec<u8>,
    SkipReason,
>)
    ensures
        match r {
            Ok(f) => in_process_subset_result(parses, bytes_view(subsetted)) == Ok::<
                Seq<u8>,
                SkipReason,
            >(f@),
            Err(k) => in_process_subset_result(parses, bytes_view(subsetted)) == Err::<
                Seq<u8>,
                SkipReason,
            >(k),
        },
{
    if !parses {
        return Err(SkipReason::MalformedInput);
    }
    match subsetted {
        None => Err(SkipReason::EngineDeclined),
        Some(f) => Ok(f),
    }
}

/// The in-process backend's last decision for one file, from what the
/// compressor returned on its subset: that container is written, and
/// nothing means the file is skipped.
pub fn in_process_artifact(compressed: Option<Vec<u8>>) -> (r: Result<Vec<u8>, SkipReason>)
    ensures
        match compressed {
            Some(w) => r matches Ok(v) && v@ == w@,
            None => r == Err::<Vec<u8>, SkipReason>(SkipReason::CompressionDeclined),
        },
{
    match compressed {
        Some(w) => Ok(w),
        None => Err(SkipReason::CompressionDeclined),
    }
}

} // verus!
