//! Textual Unicode range tokens (`U+41`, `U+0-FF`) and the codepoint
//! selections they denote.

use vstd::prelude::*;
use vstd::string::*;

verus! {

/// The value of a hexadecimal digit, or -1 for any other character.
pub open spec fn hex_digit_value(c: char) -> int {
    if '0' <= c && c <= '9' {
        c as int - '0' as int
    } else if 'a' <= c && c <= 'f' {
        c as int - 'a' as int + 10
    } else if 'A' <= c && c <= 'F' {
        c as int - 'A' as int + 10
    } else {
        -1
    }
}

/// The number that a string of hexadecimal digits denotes.
pub open spec fn hex_value(s: Seq<char>) -> int
    decreases s.len(),
{
    if s.len() == 0 {
        0
    } else {
        hex_value(s.drop_last()) * 16 + hex_digit_value(s.last())
    }
}

/// A non-empty string of hexadecimal digits.
pub open spec fn is_hex_numeral(s: Seq<char>) -> bool {
    s.len() > 0 && forall|i: int| 0 <= i < s.len() ==> hex_digit_value(#[trigger] s[i]) >= 0
}

/// A Unicode scalar value: a codepoint that is not a surrogate.
pub open spec fn is_scalar(v: int) -> bool {
    0 <= v <= 0x10FFFF && !(0xD800 <= v <= 0xDFFF)
}

/// A hexadecimal numeral that names a Unicode scalar value.
pub open spec fn denotes_scalar(s: Seq<char>) -> bool {
    is_hex_numeral(s) && is_scalar(hex_value(s))
}

/// The token without its optional leading `U+`.
pub open spec fn strip_prefix(t: Seq<char>) -> Seq<char> {
    if t.len() >= 2 && t[0] == 'U' && t[1] == '+' {
        t.skip(2)
    } else {
        t
    }
}

pub open spec fn has_dash(r: Seq<char>) -> bool {
    exists|k: int| 0 <= k < r.len() && r[k] == '-'
}

pub open spec fn is_first_dash(r: Seq<char>, k: int) -> bool {
    &&& 0 <= k < r.len()
    &&& r[k] == '-'
    &&& forall|j: int| 0 <= j < k ==> r[j] != '-'
}

/// The position of the first `-` of a text that has one.
pub open spec fn first_dash(r: Seq<char>) -> int {
    choose|k: int| is_first_dash(r, k)
}

/// Why a token does not denote a selection.
#[derive(Clone, Copy, Debug, PartialEq, Eq, Structural)]
pub enum RangeErrorKind {
    /// The part before the `-` is no valid codepoint.
    InvalidStart,
    /// The part after the `-` is no valid codepoint.
    InvalidEnd,
    /// A token without `-` is no valid codepoint.
    InvalidValue,
    /// The start of an interval lies above its end.
    Reversed,
}

/// One parsed token: a single codepoint or a closed interval.
#[derive(Clone, Copy, Debug, PartialEq, Eq, Structural)]
pub enum UnicodeValue {
    Single(char),
    Range(char, char),
}

/// What is wrong with a token, if anything.
pub open spec fn token_error(t: Seq<char>) -> Option<RangeErrorKind> {
    let r = strip_prefix(t);
    if has_dash(r) {
        let k = first_dash(r);
        if !denotes_scalar(r.take(k)) {
            Some(RangeErrorKind::InvalidStart)
        } else if !denotes_scalar(r.skip(k + 1)) {
            Some(RangeErrorKind::InvalidEnd)
        } else if hex_value(r.take(k)) > hex_value(r.skip(k + 1)) {
            Some(RangeErrorKind::Reversed)
        } else {
            None
        }
    } else if denotes_scalar(r) {
        None
    } else {
        Some(RangeErrorKind::InvalidValue)
    }
}

/// The lowest and highest codepoint that a valid token names.
pub open spec fn token_bounds(t: Seq<char>) -> (int, int) {
    let r = strip_prefix(t);
    if has_dash(r) {
        let k = first_dash(r);
        (hex_value(r.take(k)), hex_value(r.skip(k + 1)))
    } else {
        (hex_value(r), hex_value(r))
    }
}

/// Whether a valid token is written as an interval.
pub open spec fn token_is_interval(t: Seq<char>) -> bool {
    has_dash(strip_prefix(t))
}

impl UnicodeValue {
    /// The lowest codepoint of the value.
    pub open spec fn lo(self) -> int {
        match self {
            UnicodeValue::Single(c) => c as int,
            UnicodeValue::Range(a, _) => a as int,
        }
    }

    /// The highest codepoint of the value.
    pub open spec fn hi(self) -> int {
        match self {
            UnicodeValue::Single(c) => c as int,
            UnicodeValue::Range(_, b) => b as int,
        }
    }

    /// The codepoints that the value selects.
    pub open spec fn codepoints(self) -> Set<int> {
        Set::new(|cp: int| is_scalar(cp) && self.lo() <= cp <= self.hi())
    }
}

/// What `parse_unicode_range` returns for a token.
pub open spec fn parsed_as(t: Seq<char>, r: Result<UnicodeValue, RangeErrorKind>) -> bool {
    match r {
        Ok(v) => token_error(t) is None && (v.lo(), v.hi()) == token_bounds(t) && (v is Range
            <==> token_is_interval(t)),
        Err(k) => token_error(t) == Some(k),
    }
}

/// Relies on char::from_u32: a character exactly for the Unicode scalar values.
#[verifier::external_body]
pub(crate) fn scalar_char(v: u32) -> (r: Option<char>)
    ensures
        r is Some <==> is_scalar(v as int),
        r matches Some(c) ==> c as int == v as int,
{
    char::from_u32(v)
}

/// The value of one hexadecimal digit, if `c` is one.
fn digit_value(c: char) -> (r: Option<u32>)
    ensures
        r is Some <==> hex_digit_value(c) >= 0,
        r matches Some(d) ==> d as int == hex_digit_value(c) && d < 16,
{
    if '0' <= c && c <= '9' {
        Some(c as u32 - '0' as u32)
    } else if 'a' <= c && c <= 'f' {
        Some(c as u32 - 'a' as u32 + 10)
    } else if 'A' <= c && c <= 'F' {
        Some(c as u32 - 'A' as u32 + 10)
    } else {
        None
    }
}

/// Reads `s[from..to]` as a hexadecimal codepoint.
fn parse_scalar(s: &str, from: usize, to: usize) -> (r: Option<char>)
    requires
        from <= to <= s@.len(),
    ensures
        r is Some <==> denotes_scalar(s@.subrange(from as int, to as int)),
        r matches Some(c) ==> c as int == hex_value(s@.subrange(from as int, to as int)),
{
    if from == to {
        return None;
    }
    let mut acc: u32 = 0;
    let mut i: usize = from;
    while i < to
        invariant
            from <= i <= to <= s@.len(),
            forall|j: int| from <= j < i ==> hex_digit_value(#[trigger] s@[j]) >= 0,
            hex_value(s@.subrange(from as int, i as int)) >= 0,
            hex_value(s@.subrange(from as int, i as int)) <= 0x10FFFF ==> acc as int == hex_value(
                s@.subrange(from as int, i as int),
            ),
            hex_value(s@.subrange(from as int, i as int)) > 0x10FFFF ==> acc == 0x110000,
        decreases to - i,
    {
        let c = s.get_char(i);
        let d = match digit_value(c) {
            Some(d) => d,
            None => {
                assert(!is_hex_numeral(s@.subrange(from as int, to as int))) by {
                    assert(s@.subrange(from as int, to as int)[i - from] == c);
                }
                return None;
            },
        };
        proof {
            let p = s@.subrange(from as int, i as int + 1);
            assert(p.drop_last() =~= s@.subrange(from as int, i as int));
            assert(p.last() == c);
        }
        if acc > 0x10FFFF {
            acc = 0x110000;
        } else {
            acc = acc * 16 + d;
            if acc > 0x10FFFF {
                acc = 0x110000;
            }
        }
        i = i + 1;
    }
    assert(is_hex_numeral(s@.subrange(from as int, to as int))) by {
        assert forall|j: int| 0 <= j < to - from implies hex_digit_value(
            #[trigger] s@.subrange(from as int, to as int)[j],
        ) >= 0 by {
            assert(s@.subrange(from as int, to as int)[j] == s@[from + j]);
        }
    }
    scalar_char(acc)
}

/// Parses one token: an optional `U+`, then a hexadecimal codepoint or two
/// joined by `-`, the interval's start at most its end.
pub fn parse_unicode_range(token: &str) -> (r: Result<UnicodeValue, RangeErrorKind>)
    ensures
        parsed_as(token@, r),
{
    let ghost t = token@;
    let n = token.unicode_len();
    let start: usize = if n >= 2 && token.get_char(0) == 'U' && token.get_char(1) == '+' {
        2
    } else {
        0
    };
    let ghost r = strip_prefix(t);
    assert(r =~= t.subrange(start as int, n as int));
    let mut k: usize = start;
    while k < n && token.get_char(k) != '-'
        invariant
            start <= k <= n,
            n == t.len(),
            t == token@,
            r =~= t.subrange(start as int, n as int),
            forall|j: int| start <= j < k ==> t[j] != '-',
        decreases n - k,
    {
        k = k + 1;
    }
    if k < n {
        proof {
            let d = k - start;
            assert(is_first_dash(r, d as int));
            assert(has_dash(r));
            let f = first_dash(r);
            assert(is_first_dash(r, f));
            assert(f == d) by {
                if f < d {
                    assert(r[f] == t[start + f]);
                } else if d < f {
                    assert(r[d as int] == '-');
                }
            }
            assert(r.take(d as int) =~= t.subrange(start as int, k as int));
            assert(r.skip(d + 1) =~= t.subrange(k + 1, n as int));
        }
        let a = match parse_scalar(token, start, k) {
            Some(a) => a,
            None => return Err(RangeErrorKind::InvalidStart),
        };
        let b = match parse_scalar(token, k + 1, n) {
            Some(b) => b,
            None => return Err(RangeErrorKind::InvalidEnd),
        };
        if (a as u32) > (b as u32) {
            Err(RangeErrorKind::Reversed)
        } else {
            Ok(UnicodeValue::Range(a, b))
        }
    } else {
        assert(!has_dash(r)) by {
            if has_dash(r) {
                let w = choose|w: int| 0 <= w < r.len() && r[w] == '-';
                assert(t[start + w] == '-');
            }
        }
        match parse_scalar(token, start, n) {
            Some(c) => Ok(UnicodeValue::Single(c)),
            None => Err(RangeErrorKind::InvalidValue),
        }
    }
}

/// Where a parse of several tokens stopped, and why.
#[derive(Clone, Copy, Debug, PartialEq, Eq, Structural)]
pub struct RangeError {
    /// The position of the first token that does not parse.
    pub index: usize,
    pub kind: RangeErrorKind,
}

/// The codepoints that a valid token names.
pub open spec fn token_codepoints(t: Seq<char>) -> Set<int> {
    Set::new(|cp: int| is_scalar(cp) && token_bounds(t).0 <= cp <= token_bounds(t).1)
}

/// The codepoints that a list of valid tokens names together.
pub open spec fn tokens_selection(ts: Seq<Seq<char>>) -> Set<int> {
    Set::new(|cp: int| exists|i: int| 0 <= i < ts.len() && #[trigger] token_codepoints(ts[i]).contains(cp))
}

/// The codepoints that a list of parsed values selects.
pub open spec fn selection(vs: Seq<UnicodeValue>) -> Set<int> {
    Set::new(|cp: int| exists|i: int| 0 <= i < vs.len() && #[trigger] vs[i].codepoints().contains(cp))
}

pub open spec fn views(ts: Seq<String>) -> Seq<Seq<char>> {
    ts.map_values(|t: String| t@)
}

/// Parses every token, in order; stops at the first one that does not parse.
pub fn parse_unicode_ranges(tokens: &[String]) -> (r: Result<Vec<UnicodeValue>, RangeError>)
    ensures
        r is Ok <==> forall|i: int| 0 <= i < tokens@.len() ==> token_error(#[trigger] tokens@[i]@) is None,
        r matches Ok(vs) ==> {
            &&& vs@.len() == tokens@.len()
            &&& forall|i: int| 0 <= i < tokens@.len() ==> parsed_as(#[trigger] tokens@[i]@, Ok(vs@[i]))
            &&& selection(vs@) == tokens_selection(views(tokens@))
        },
        r matches Err(e) ==> {
            &&& e.index < tokens@.len()
            &&& parsed_as(tokens@[e.index as int]@, Err(e.kind))
            &&& forall|j: int| 0 <= j < e.index ==> token_error(#[trigger] tokens@[j]@) is None
        },
{
    let mut vs: Vec<UnicodeValue> = Vec::new();
    let mut i: usize = 0;
    while i < tokens.len()
        invariant
            i <= tokens@.len(),
            vs@.len() == i,
            forall|j: int| 0 <= j < i ==> parsed_as(#[trigger] tokens@[j]@, Ok(vs@[j])),
        decreases tokens@.len() - i,
    {
        match parse_unicode_range(tokens[i].as_str()) {
            Ok(v) => vs.push(v),
            Err(kind) => {
                assert(parsed_as(tokens@[i as int]@, Err(kind)));
                return Err(RangeError { index: i, kind });
            },
        }
        i = i + 1;
    }
    assert(selection(vs@) =~= tokens_selection(views(tokens@))) by {
        assert forall|cp: int| selection(vs@).contains(cp) implies tokens_selection(views(tokens@)).contains(cp) by {
            let j = choose|j: int| 0 <= j < vs@.len() && #[trigger] vs@[j].codepoints().contains(cp);
            assert(token_codepoints(views(tokens@)[j]).contains(cp));
        }
        assert forall|cp: int| tokens_selection(views(tokens@)).contains(cp) implies selection(vs@).contains(cp) by {
            let j = choose|j: int| 0 <= j < views(tokens@).len() && #[trigger] token_codepoints(views(tokens@)[j]).contains(cp);
            assert(vs@[j].codepoints().contains(cp));
        }
    }
    Ok(vs)
}

/// The uppercase hexadecimal digit for `d`.
pub open spec fn hex_char(d: int) -> char {
    seq!['0', '1', '2', '3', '4', '5', '6', '7', '8', '9', 'A', 'B', 'C', 'D', 'E', 'F'][d]
}

/// The shortest uppercase hexadecimal numeral of `n`.
pub open spec fn hex_text(n: nat) -> Seq<char>
    decreases n,
{
    if n < 16 {
        seq![hex_char(n as int)]
    } else {
        hex_text(n / 16).push(hex_char((n % 16) as int))
    }
}

/// The token that a value serializes to: `U+<lo>` or `U+<lo>-<hi>`.
pub open spec fn canonical_token(v: UnicodeValue) -> Seq<char> {
    match v {
        UnicodeValue::Single(c) => seq!['U', '+'] + hex_text(c as nat),
        UnicodeValue::Range(a, b) => seq!['U', '+'] + hex_text(a as nat) + seq!['-'] + hex_text(
            b as nat,
        ),
    }
}

proof fn lemma_hex_char(d: int)
    requires
        0 <= d < 16,
    ensures
        hex_digit_value(hex_char(d)) == d,
{
    if d == 0 {
        assert(hex_char(0) == '0');
    } else if d == 1 {
        assert(hex_char(1) == '1');
    } else if d == 2 {
        assert(hex_char(2) == '2');
    } else if d == 3 {
        assert(hex_char(3) == '3');
    } else if d == 4 {
        assert(hex_char(4) == '4');
    } else if d == 5 {
        assert(hex_char(5) == '5');
    } else if d == 6 {
        assert(hex_char(6) == '6');
    } else if d == 7 {
        assert(hex_char(7) == '7');
    } else if d == 8 {
        assert(hex_char(8) == '8');
    } else if d == 9 {
        assert(hex_char(9) == '9');
    } else if d == 10 {
        assert(hex_char(10) == 'A');
    } else if d == 11 {
        assert(hex_char(11) == 'B');
    } else if d == 12 {
        assert(hex_char(12) == 'C');
    } else if d == 13 {
        assert(hex_char(13) == 'D');
    } else if d == 14 {
        assert(hex_char(14) == 'E');
    } else if d == 15 {
        assert(hex_char(15) == 'F');
    }
}

proof fn lemma_hex_text(n: nat)
    ensures
        is_hex_numeral(hex_text(n)),
        hex_value(hex_text(n)) == n,
    decreases n,
{
    if n < 16 {
        lemma_hex_char(n as int);
        assert(hex_text(n).drop_last() =~= Seq::<char>::empty());
        assert(hex_text(n).last() == hex_char(n as int));
        assert(hex_value(hex_text(n)) == hex_value(Seq::<char>::empty()) * 16 + n);
    } else {
        lemma_hex_text(n / 16);
        lemma_hex_char((n % 16) as int);
        let s = hex_text(n);
        assert(s.drop_last() =~= hex_text(n / 16));
        assert(s.last() == hex_char((n % 16) as int));
        assert(hex_value(s) == (n / 16) as int * 16 + (n % 16) as int);
        assert((n / 16) as int * 16 + (n % 16) as int == n);
        assert forall|i: int| 0 <= i < s.len() implies hex_digit_value(#[trigger] s[i]) >= 0 by {
            if i < s.len() - 1 {
                assert(s[i] == hex_text(n / 16)[i]);
            }
        }
    }
}

fn hex_digit_str(d: u32) -> (r: &'static str)
    requires
        d < 16,
    ensures
        r@ == seq![hex_char(d as int)],
{
    match d {
        0 => {
            proof { reveal_strlit("0"); }
            "0"
        },
        1 => {
            proof { reveal_strlit("1"); }
            "1"
        },
        2 => {
            proof { reveal_strlit("2"); }
            "2"
        },
        3 => {
            proof { reveal_strlit("3"); }
            "3"
        },
        4 => {
            proof { reveal_strlit("4"); }
            "4"
        },
        5 => {
            proof { reveal_strlit("5"); }
            "5"
        },
        6 => {
            proof { reveal_strlit("6"); }
            "6"
        },
        7 => {
            proof { reveal_strlit("7"); }
            "7"
        },
        8 => {
            proof { reveal_strlit("8"); }
            "8"
        },
        9 => {
            proof { reveal_strlit("9"); }
            "9"
        },
        10 => {
            proof { reveal_strlit("A"); }
            "A"
        },
        11 => {
            proof { reveal_strlit("B"); }
            "B"
        },
        12 => {
            proof { reveal_strlit("C"); }
            "C"
        },
        13 => {
            proof { reveal_strlit("D"); }
            "D"
        },
        14 => {
            proof { reveal_strlit("E"); }
            "E"
        },
        _ => {
            proof { reveal_strlit("F"); }
            "F"
        },
    }
}

fn hex_string(n: u32) -> (r: String)
    ensures
        r@ == hex_text(n as nat),
    decreases n,
{
    if n < 16 {
        String::from_str(hex_digit_str(n))
    } else {
        let mut s = hex_string(n / 16);
        s.append(hex_digit_str(n % 16));
        s
    }
}

/// Writes a value back as a token: `U+<HEX>`, or `U+<HEX>-<HEX>` for an
/// interval, in uppercase and without leading zeros.
pub fn to_token(v: &UnicodeValue) -> (r: String)
    ensures
        r@ == canonical_token(*v),
{
    proof {
        reveal_strlit("U+");
        reveal_strlit("-");
    }
    let mut s = String::from_str("U+");
    match v {
        UnicodeValue::Single(c) => {
            let h = hex_string(*c as u32);
            s.append(h.as_str());
        },
        UnicodeValue::Range(a, b) => {
            let h = hex_string(*a as u32);
            s.append(h.as_str());
            s.append("-");
            let h = hex_string(*b as u32);
            s.append(h.as_str());
        },
    }
    s
}

/// Writes every value back as a token, in order.
pub fn to_tokens(vs: &[UnicodeValue]) -> (r: Vec<String>)
    ensures
        views(r@) == vs@.map_values(|v: UnicodeValue| canonical_token(v)),
{
    let mut r: Vec<String> = Vec::new();
    let mut i: usize = 0;
    while i < vs.len()
        invariant
            i <= vs@.len(),
            r@.len() == i,
            forall|j: int| 0 <= j < i ==> (#[trigger] r@[j])@ == canonical_token(vs@[j]),
        decreases vs@.len() - i,
    {
        r.push(to_token(&vs[i]));
        i = i + 1;
    }
    assert(views(r@) =~= vs@.map_values(|v: UnicodeValue| canonical_token(v)));
    r
}

/// A token `U+<x>-<y>`, whose endpoints are valid codepoints with
/// `x <= y`, names exactly the scalar values of the closed interval `[x, y]`.
pub proof fn lemma_interval_token(x: Seq<char>, y: Seq<char>)
    requires
        denotes_scalar(x),
        denotes_scalar(y),
        hex_value(x) <= hex_value(y),
    ensures
        ({
            let t = seq!['U', '+'] + x + seq!['-'] + y;
            &&& token_error(t) is None
            &&& token_is_interval(t)
            &&& token_bounds(t) == (hex_value(x), hex_value(y))
            &&& token_codepoints(t) == Set::new(
                |cp: int| is_scalar(cp) && hex_value(x) <= cp <= hex_value(y),
            )
        }),
{
    let t = seq!['U', '+'] + x + seq!['-'] + y;
    let r = strip_prefix(t);
    assert(r =~= x + seq!['-'] + y);
    let d = x.len() as int;
    assert forall|j: int| 0 <= j < d implies r[j] != '-' by {
        assert(r[j] == x[j]);
        assert(hex_digit_value(x[j]) >= 0);
    }
    assert(is_first_dash(r, d));
    assert(has_dash(r));
    let f = first_dash(r);
    assert(f == d) by {
        if f > d {
            assert(r[d] == '-');
        }
    }
    assert(r.take(d) =~= x);
    assert(r.skip(d + 1) =~= y);
    assert(token_codepoints(t) =~= Set::new(
        |cp: int| is_scalar(cp) && hex_value(x) <= cp <= hex_value(y),
    ));
}

/// A token `U+<x>`, where `x` is a valid codepoint, names exactly that
/// codepoint.
pub proof fn lemma_single_token(x: Seq<char>)
    requires
        denotes_scalar(x),
    ensures
        ({
            let t = seq!['U', '+'] + x;
            &&& token_error(t) is None
            &&& !token_is_interval(t)
            &&& token_bounds(t) == (hex_value(x), hex_value(x))
            &&& token_codepoints(t) == set![hex_value(x)]
        }),
{
    let t = seq!['U', '+'] + x;
    let r = strip_prefix(t);
    assert(r =~= x);
    assert(!has_dash(r)) by {
        if has_dash(r) {
            let w = choose|w: int| 0 <= w < r.len() && r[w] == '-';
            assert(hex_digit_value(x[w]) >= 0);
        }
    }
    assert(token_codepoints(t) =~= set![hex_value(x)]);
}

/// Serializing parsed values and parsing the tokens again gives the same
/// values, and so the same codepoint selection.
pub proof fn lemma_canonical_round_trip(vs: Seq<UnicodeValue>)
    requires
        forall|i: int| 0 <= i < vs.len() ==> (#[trigger] vs[i]).lo() <= vs[i].hi(),
    ensures
        forall|i: int|
            0 <= i < vs.len() ==> parsed_as(#[trigger] canonical_token(vs[i]), Ok(vs[i])),
        tokens_selection(vs.map_values(|v: UnicodeValue| canonical_token(v))) == selection(vs),
{
    let ts = vs.map_values(|v: UnicodeValue| canonical_token(v));
    assert forall|i: int| 0 <= i < vs.len() implies parsed_as(
        #[trigger] canonical_token(vs[i]),
        Ok(vs[i]),
    ) && token_codepoints(canonical_token(vs[i])) == vs[i].codepoints() by {
        match vs[i] {
            UnicodeValue::Single(c) => {
                lemma_hex_text(c as nat);
                lemma_single_token(hex_text(c as nat));
                assert(token_codepoints(canonical_token(vs[i])) =~= vs[i].codepoints());
            },
            UnicodeValue::Range(a, b) => {
                lemma_hex_text(a as nat);
                lemma_hex_text(b as nat);
                lemma_interval_token(hex_text(a as nat), hex_text(b as nat));
                assert(token_codepoints(canonical_token(vs[i])) =~= vs[i].codepoints());
            },
        }
    }
    assert(tokens_selection(ts) =~= selection(vs)) by {
        assert forall|cp: int| selection(vs).contains(cp) implies tokens_selection(ts).contains(cp) by {
            let j = choose|j: int| 0 <= j < vs.len() && #[trigger] vs[j].codepoints().contains(cp);
            assert(token_codepoints(ts[j]).contains(cp));
        }
        assert forall|cp: int| tokens_selection(ts).contains(cp) implies selection(vs).contains(cp) by {
            let j = choose|j: int| 0 <= j < ts.len() && #[trigger] token_codepoints(ts[j]).contains(cp);
            assert(vs[j].codepoints().contains(cp));
        }
    }
}

/// Parsing tokens, writing the values back canonically and parsing those
/// again gives the same values, and the canonical tokens select the same
/// codepoints as the tokens that were parsed.
pub proof fn lemma_reparse_parsed(ts: Seq<Seq<char>>, vs: Seq<UnicodeValue>)
    requires
        vs.len() == ts.len(),
        forall|i: int| 0 <= i < ts.len() ==> parsed_as(#[trigger] ts[i], Ok(vs[i])),
    ensures
        forall|i: int|
            0 <= i < vs.len() ==> parsed_as(#[trigger] canonical_token(vs[i]), Ok(vs[i])),
        tokens_selection(vs.map_values(|v: UnicodeValue| canonical_token(v))) == tokens_selection(
            ts,
        ),
{
    assert forall|i: int| 0 <= i < vs.len() implies (#[trigger] vs[i]).lo() <= vs[i].hi()
        && vs[i].codepoints() == token_codepoints(ts[i]) by {
        assert(parsed_as(ts[i], Ok(vs[i])));
        assert(vs[i].codepoints() =~= token_codepoints(ts[i]));
    }
    lemma_canonical_round_trip(vs);
    assert(selection(vs) =~= tokens_selection(ts)) by {
        assert forall|cp: int| selection(vs).contains(cp) implies tokens_selection(ts).contains(cp) by {
            let j = choose|j: int| 0 <= j < vs.len() && #[trigger] vs[j].codepoints().contains(cp);
            assert(token_codepoints(ts[j]).contains(cp));
        }
        assert forall|cp: int| tokens_selection(ts).contains(cp) implies selection(vs).contains(cp) by {
            let j = choose|j: int| 0 <= j < ts.len() && #[trigger] token_codepoints(ts[j]).contains(cp);
            assert(vs[j].codepoints().contains(cp));
        }
    }
}

} // verus!
