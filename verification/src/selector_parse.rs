//! Parsing of CSS selector lists into [`Complex`] selectors.
//!
//! The grammar is stated as specification functions over the characters of
//! the input and positions in it; each parsing function is proved to compute
//! exactly what its specification states.

use vstd::prelude::*;
use crate::selector::{
    AttrOp, Basic, BasicV, Combinator, Complex, ComplexV, PseudoKind, Simple, SimpleV,
    compound_view, list_view, basics_view,
};
use crate::text::{is_ascii_ws, lower_seq, to_lower_vec, vec_eq, str_to_vec, ascii_ws};

verus! {

// ---------------------------------------------------------------------------
// Character classes and scanning
// ---------------------------------------------------------------------------

pub open spec fn is_digit(c: char) -> bool {
    '0' <= c && c <= '9'
}

/// A character that may begin an identifier.
pub open spec fn is_name_start(c: char) -> bool {
    ('a' <= c && c <= 'z') || ('A' <= c && c <= 'Z') || c == '_' || c >= '\u{80}'
}

/// A character that may continue an identifier.
pub open spec fn is_name_char(c: char) -> bool {
    is_name_start(c) || is_digit(c) || c == '-'
}

fn name_start(c: char) -> (r: bool)
    ensures
        r == is_name_start(c),
{
    ('a' <= c && c <= 'z') || ('A' <= c && c <= 'Z') || c == '_' || c >= '\u{80}'
}

fn name_char(c: char) -> (r: bool)
    ensures
        r == is_name_char(c),
{
    name_start(c) || ('0' <= c && c <= '9') || c == '-'
}

/// First position at or after `i` that is not white space.
pub open spec fn skip_ws(s: Seq<char>, i: int) -> int
    decreases s.len() - i,
{
    if 0 <= i < s.len() && is_ascii_ws(s[i]) {
        skip_ws(s, i + 1)
    } else {
        i
    }
}

/// First position at or after `i` that does not continue a name.
pub open spec fn scan_name(s: Seq<char>, i: int) -> int
    decreases s.len() - i,
{
    if 0 <= i < s.len() && is_name_char(s[i]) {
        scan_name(s, i + 1)
    } else {
        i
    }
}

/// First position at or after `i` that is not a digit.
pub open spec fn scan_digits(s: Seq<char>, i: int) -> int
    decreases s.len() - i,
{
    if 0 <= i < s.len() && is_digit(s[i]) {
        scan_digits(s, i + 1)
    } else {
        i
    }
}

/// First position at or after `i` holding `q`, or the end.
pub open spec fn find_char(s: Seq<char>, i: int, q: char) -> int
    decreases s.len() - i,
{
    if 0 <= i < s.len() && s[i] != q {
        find_char(s, i + 1, q)
    } else {
        i
    }
}

/// End of the identifier starting at `i`, if one starts there: a run of
/// name characters that begins with a name-start character, or with `-`
/// followed by a name-start character or another `-`.
pub open spec fn ident_end(s: Seq<char>, i: int) -> Option<int> {
    let e = scan_name(s, i);
    if 0 <= i < e && (is_name_start(s[i]) || (s[i] == '-' && i + 1 < e && (is_name_start(s[i + 1])
        || s[i + 1] == '-'))) {
        Some(e)
    } else {
        None
    }
}

/// Value of the decimal digits at `lo..hi`.
pub open spec fn digits_value(s: Seq<char>, lo: int, hi: int) -> int
    decreases hi - lo,
{
    if lo < hi {
        digits_value(s, lo, hi - 1) * 10 + (s[hi - 1] as int - '0' as int)
    } else {
        0
    }
}

proof fn lemma_skip_ws(s: Seq<char>, i: int)
    requires
        0 <= i <= s.len(),
    ensures
        i <= skip_ws(s, i) <= s.len(),
        skip_ws(s, i) < s.len() ==> !is_ascii_ws(s[skip_ws(s, i)]),
    decreases s.len() - i,
{
    if i < s.len() && is_ascii_ws(s[i]) {
        lemma_skip_ws(s, i + 1);
    }
}

proof fn lemma_scan_name(s: Seq<char>, i: int)
    requires
        0 <= i <= s.len(),
    ensures
        i <= scan_name(s, i) <= s.len(),
    decreases s.len() - i,
{
    if i < s.len() && is_name_char(s[i]) {
        lemma_scan_name(s, i + 1);
    }
}

proof fn lemma_scan_digits(s: Seq<char>, i: int)
    requires
        0 <= i <= s.len(),
    ensures
        i <= scan_digits(s, i) <= s.len(),
        forall|k: int| i <= k < scan_digits(s, i) ==> is_digit(#[trigger] s[k]),
    decreases s.len() - i,
{
    if i < s.len() && is_digit(s[i]) {
        lemma_scan_digits(s, i + 1);
    }
}

proof fn lemma_find_char(s: Seq<char>, i: int, q: char)
    requires
        0 <= i <= s.len(),
    ensures
        i <= find_char(s, i, q) <= s.len(),
        find_char(s, i, q) < s.len() ==> s[find_char(s, i, q)] == q,
    decreases s.len() - i,
{
    if i < s.len() && s[i] != q {
        lemma_find_char(s, i + 1, q);
    }
}

pub(crate) fn skip_ws_exec(s: &Vec<char>, i: usize) -> (r: usize)
    requires
        i <= s.len(),
    ensures
        r == skip_ws(s@, i as int),
        i <= r <= s.len(),
{
    let mut j = i;
    while j < s.len() && ascii_ws(s[j])
        invariant
            i <= j <= s.len(),
            skip_ws(s@, i as int) == skip_ws(s@, j as int),
        decreases s.len() - j,
    {
        j = j + 1;
    }
    j
}

fn scan_name_exec(s: &Vec<char>, i: usize) -> (r: usize)
    requires
        i <= s.len(),
    ensures
        r == scan_name(s@, i as int),
        i <= r <= s.len(),
{
    let mut j = i;
    while j < s.len() && name_char(s[j])
        invariant
            i <= j <= s.len(),
            scan_name(s@, i as int) == scan_name(s@, j as int),
        decreases s.len() - j,
    {
        j = j + 1;
    }
    j
}

fn scan_digits_exec(s: &Vec<char>, i: usize) -> (r: usize)
    requires
        i <= s.len(),
    ensures
        r == scan_digits(s@, i as int),
        i <= r <= s.len(),
{
    let mut j = i;
    while j < s.len() && '0' <= s[j] && s[j] <= '9'
        invariant
            i <= j <= s.len(),
            scan_digits(s@, i as int) == scan_digits(s@, j as int),
        decreases s.len() - j,
    {
        j = j + 1;
    }
    j
}

pub(crate) fn find_char_exec(s: &Vec<char>, i: usize, q: char) -> (r: usize)
    requires
        i <= s.len(),
    ensures
        r == find_char(s@, i as int, q),
        i <= r <= s.len(),
        r < s.len() ==> s@[r as int] == q,
{
    let mut j = i;
    while j < s.len() && s[j] != q
        invariant
            i <= j <= s.len(),
            find_char(s@, i as int, q) == find_char(s@, j as int, q),
        decreases s.len() - j,
    {
        j = j + 1;
    }
    j
}

fn ident_end_exec(s: &Vec<char>, i: usize) -> (r: Option<usize>)
    requires
        i <= s.len(),
    ensures
        r matches Some(e) ==> ident_end(s@, i as int) == Some(e as int) && i < e <= s.len(),
        r is None ==> ident_end(s@, i as int) is None,
{
    let e = scan_name_exec(s, i);
    if i < e && (name_start(s[i]) || (s[i] == '-' && i + 1 < e && (name_start(s[i + 1]) || s[i
        + 1] == '-'))) {
        Some(e)
    } else {
        None
    }
}

/// The characters `lo..hi` of `s`.
pub(crate) fn slice_vec(s: &Vec<char>, lo: usize, hi: usize) -> (r: Vec<char>)
    requires
        lo <= hi <= s.len(),
    ensures
        r@ == s@.subrange(lo as int, hi as int),
{
    let mut r: Vec<char> = Vec::new();
    let mut k = lo;
    while k < hi
        invariant
            lo <= k <= hi <= s.len(),
            r@ == s@.subrange(lo as int, k as int),
        decreases hi - k,
    {
        r.push(s[k]);
        k = k + 1;
        assert(r@ =~= s@.subrange(lo as int, k as int));
    }
    r
}

/// Value of at most nine decimal digits.
fn digits_value_exec(s: &Vec<char>, lo: usize, hi: usize) -> (r: i64)
    requires
        lo <= hi <= s.len(),
        hi - lo <= 9,
        forall|k: int| lo <= k < hi ==> is_digit(#[trigger] s@[k]),
    ensures
        r == digits_value(s@, lo as int, hi as int),
        0 <= r < 1_000_000_000,
{
    let mut v: i64 = 0;
    let mut k = lo;
    while k < hi
        invariant
            lo <= k <= hi <= s.len(),
            hi - lo <= 9,
            forall|m: int| lo <= m < hi ==> is_digit(#[trigger] s@[m]),
            v == digits_value(s@, lo as int, k as int),
            0 <= v,
            v < pow10((k - lo) as nat),
        decreases hi - k,
    {
        let c = s[k];
        assert(is_digit(s@[k as int]));
        let dv: i64 = (c as u32 - '0' as u32) as i64;
        assert(0 <= dv <= 9);
        proof {
            lemma_pow10_mono((k - lo) as nat, 8);
            reveal_with_fuel(pow10, 10);
        }
        assert(v * 10 + dv < pow10((k + 1 - lo) as nat)) by (nonlinear_arith)
            requires
                0 <= v < pow10((k - lo) as nat),
                0 <= dv <= 9,
                pow10((k + 1 - lo) as nat) == pow10((k - lo) as nat) * 10,
        ;
        v = v * 10 + dv;
        k = k + 1;
    }
    assert(pow10((k - lo) as nat) <= 1_000_000_000) by {
        lemma_pow10_mono((k - lo) as nat, 9);
    }
    v
}

proof fn lemma_pow10_mono(a: nat, b: nat)
    requires
        a <= b,
    ensures
        pow10(a) <= pow10(b),
        pow10(9) == 1_000_000_000,
    decreases b,
{
    reveal_with_fuel(pow10, 10);
    if a < b {
        lemma_pow10_mono(a, (b - 1) as nat);
        assert(pow10(b) == pow10((b - 1) as nat) * 10);
        assert(pow10((b - 1) as nat) >= 1) by {
            lemma_pow10_pos((b - 1) as nat);
        }
    }
}

proof fn lemma_pow10_pos(a: nat)
    ensures
        pow10(a) >= 1,
    decreases a,
{
    if a > 0 {
        lemma_pow10_pos((a - 1) as nat);
    }
}

/// Ten to the power `e`.
pub open spec fn pow10(e: nat) -> int
    decreases e,
{
    if e == 0 {
        1
    } else {
        pow10((e - 1) as nat) * 10
    }
}

// ---------------------------------------------------------------------------
// Grammar
// ---------------------------------------------------------------------------

/// Pseudo-classes written without arguments.
pub open spec fn pseudo_keyword(name: Seq<char>) -> Option<PseudoKind> {
    if name == "first-child"@ {
        Some(PseudoKind::FirstChild)
    } else if name == "last-child"@ {
        Some(PseudoKind::LastChild)
    } else if name == "only-child"@ {
        Some(PseudoKind::OnlyChild)
    } else if name == "first-of-type"@ {
        Some(PseudoKind::FirstOfType)
    } else if name == "last-of-type"@ {
        Some(PseudoKind::LastOfType)
    } else if name == "only-of-type"@ {
        Some(PseudoKind::OnlyOfType)
    } else if name == "empty"@ {
        Some(PseudoKind::Empty)
    } else if name == "root"@ {
        Some(PseudoKind::Root)
    } else if name == "link"@ {
        Some(PseudoKind::Link)
    } else if name == "any-link"@ {
        Some(PseudoKind::AnyLink)
    } else if name == "checked"@ {
        Some(PseudoKind::Checked)
    } else if name == "disabled"@ {
        Some(PseudoKind::Disabled)
    } else if name == "enabled"@ {
        Some(PseudoKind::Enabled)
    } else if name == "before"@ || name == "after"@ || name == "first-line"@ || name
        == "first-letter"@ {
        Some(PseudoKind::PseudoElement)
    } else if name == "required"@ {
        Some(PseudoKind::Required)
    } else if name == "optional"@ {
        Some(PseudoKind::Optional)
    } else if is_dynamic_pseudo(name) {
        Some(PseudoKind::Dynamic)
    } else {
        None
    }
}

/// Pseudo-elements, written after `::`; the first four may also be
/// written after a single `:`.
pub open spec fn is_pseudo_element(name: Seq<char>) -> bool {
    name == "before"@ || name == "after"@ || name == "first-line"@ || name == "first-letter"@
        || name == "selection"@ || name == "placeholder"@ || name == "marker"@ || name
        == "backdrop"@
}

/// Pseudo-classes of user interaction, of navigation and of time.
pub open spec fn is_dynamic_pseudo(name: Seq<char>) -> bool {
    name == "hover"@ || name == "active"@ || name == "focus"@ || name == "focus-visible"@ || name
        == "focus-within"@ || name == "visited"@ || name == "target"@ || name == "target-within"@
        || name == "current"@ || name == "past"@ || name == "future"@ || name == "playing"@ || name
        == "paused"@ || name == "fullscreen"@
}

/// Pseudo-classes that take an `an+b` argument.
pub open spec fn nth_keyword(name: Seq<char>) -> Option<PseudoKind> {
    if name == "nth-child"@ {
        Some(PseudoKind::NthChild)
    } else if name == "nth-last-child"@ {
        Some(PseudoKind::NthLastChild)
    } else if name == "nth-of-type"@ {
        Some(PseudoKind::NthOfType)
    } else if name == "nth-last-of-type"@ {
        Some(PseudoKind::NthLastOfType)
    } else {
        None
    }
}

/// An attribute value: a quoted string (without escapes) or an identifier.
pub open spec fn value_at(s: Seq<char>, i: int) -> Option<(Seq<char>, int)> {
    if 0 <= i < s.len() && (s[i] == '"' || s[i] == '\'') {
        let e = find_char(s, i + 1, s[i]);
        if e < s.len() {
            Some((s.subrange(i + 1, e), e + 1))
        } else {
            None
        }
    } else {
        match ident_end(s, i) {
            Some(e) => Some((s.subrange(i, e), e)),
            None => None,
        }
    }
}

/// An attribute operator.
pub open spec fn op_at(s: Seq<char>, b: int) -> Option<(AttrOp, int)> {
    if 0 <= b < s.len() && s[b] == '=' {
        Some((AttrOp::Equals, b + 1))
    } else if 0 <= b && b + 1 < s.len() && s[b + 1] == '=' {
        if s[b] == '~' {
            Some((AttrOp::Includes, b + 2))
        } else if s[b] == '|' {
            Some((AttrOp::DashMatch, b + 2))
        } else if s[b] == '^' {
            Some((AttrOp::Prefix, b + 2))
        } else if s[b] == '$' {
            Some((AttrOp::Suffix, b + 2))
        } else if s[b] == '*' {
            Some((AttrOp::Substring, b + 2))
        } else {
            None
        }
    } else {
        None
    }
}

/// The case flag of an attribute selector: `i` (compare in ASCII lower
/// case) or `s`, standing alone.
pub open spec fn flag_at(s: Seq<char>, g: int) -> (bool, int) {
    if 0 <= g < s.len() && scan_name(s, g) == g + 1 && (s[g] == 'i' || s[g] == 'I') {
        (true, skip_ws(s, g + 1))
    } else if 0 <= g < s.len() && scan_name(s, g) == g + 1 && (s[g] == 's' || s[g] == 'S') {
        (false, skip_ws(s, g + 1))
    } else {
        (false, g)
    }
}

/// An attribute selector starting at the `[` at `i`.
pub open spec fn attr_at(s: Seq<char>, i: int) -> Option<(BasicV, int)> {
    let a = skip_ws(s, i + 1);
    match ident_end(s, a) {
        None => None,
        Some(e) => {
            let name = lower_seq(s.subrange(a, e));
            let b = skip_ws(s, e);
            if b < s.len() && s[b] == ']' {
                Some((BasicV::Attr(name, AttrOp::Exists, Seq::empty(), false), b + 1))
            } else {
                match op_at(s, b) {
                    None => None,
                    Some((op, c)) => match value_at(s, skip_ws(s, c)) {
                        None => None,
                        Some((v, f)) => {
                            let fl = flag_at(s, skip_ws(s, f));
                            if fl.1 < s.len() && s[fl.1] == ']' {
                                Some((BasicV::Attr(name, op, v, fl.0), fl.1 + 1))
                            } else {
                                None
                            }
                        },
                    },
                }
            }
        },
    }
}

/// The `an+b` argument of an nth pseudo-class, up to and including the
/// closing parenthesis: `odd`, `even`, or `an+b` with optional parts.
pub open spec fn nth_at(s: Seq<char>, i: int) -> Option<(int, int, int)> {
    let p = skip_ws(s, i);
    let kw = match ident_end(s, p) {
        Some(e) => lower_seq(s.subrange(p, e)),
        None => Seq::empty(),
    };
    if kw == "odd"@ || kw == "even"@ {
        let q = skip_ws(s, ident_end(s, p)->0);
        if q < s.len() && s[q] == ')' {
            Some(
                (
                    2,
                    if kw == "odd"@ {
                        1
                    } else {
                        0
                    },
                    q + 1,
                ),
            )
        } else {
            None
        }
    } else {
        let negative = 0 <= p < s.len() && s[p] == '-';
        let p1 = if 0 <= p < s.len() && (s[p] == '+' || s[p] == '-') {
            p + 1
        } else {
            p
        };
        let de = scan_digits(s, p1);
        if de - p1 > 9 {
            None
        } else if 0 <= de < s.len() && (s[de] == 'n' || s[de] == 'N') {
            let mag = if de > p1 {
                digits_value(s, p1, de)
            } else {
                1
            };
            let a = if negative {
                -mag
            } else {
                mag
            };
            let q = skip_ws(s, de + 1);
            if q < s.len() && (s[q] == '+' || s[q] == '-') {
                let r = skip_ws(s, q + 1);
                let de2 = scan_digits(s, r);
                if de2 == r || de2 - r > 9 {
                    None
                } else {
                    let b = if s[q] == '-' {
                        -digits_value(s, r, de2)
                    } else {
                        digits_value(s, r, de2)
                    };
                    let f = skip_ws(s, de2);
                    if f < s.len() && s[f] == ')' {
                        Some((a, b, f + 1))
                    } else {
                        None
                    }
                }
            } else if q < s.len() && s[q] == ')' {
                Some((a, 0, q + 1))
            } else {
                None
            }
        } else if de > p1 {
            let f = skip_ws(s, de);
            if f < s.len() && s[f] == ')' {
                Some(
                    (
                        0,
                        if negative {
                            -digits_value(s, p1, de)
                        } else {
                            digits_value(s, p1, de)
                        },
                        f + 1,
                    ),
                )
            } else {
                None
            }
        } else {
            None
        }
    }
}

/// The basic selector a simple one stands for inside `:not(..)`.
pub open spec fn to_basic(x: SimpleV) -> BasicV {
    match x {
        SimpleV::Basic(b) => b,
        _ => BasicV::Universal,
    }
}

pub open spec fn to_basics(c: Seq<SimpleV>) -> Seq<BasicV> {
    c.map_values(|x: SimpleV| to_basic(x))
}

/// A compound selector at `i`: an optional type or `*`, then any number of
/// id, class, attribute and pseudo-class selectors; at least one in all.
/// `:not(..)` is allowed only when `allow_not` is set.
pub open spec fn compound_at(s: Seq<char>, i: int, allow_not: bool) -> Option<(Seq<SimpleV>, int)>
    decreases (if allow_not {
        1int
    } else {
        0int
    }), s.len() - i, 5int,
{
    if 0 <= i <= s.len() {
        let head: (Seq<SimpleV>, int) = if i < s.len() && s[i] == '*' {
            (seq![SimpleV::Basic(BasicV::Universal)], i + 1)
        } else {
            match ident_end(s, i) {
                Some(e) => (seq![SimpleV::Basic(BasicV::Type(lower_seq(s.subrange(i, e))))], e),
                None => (Seq::empty(), i),
            }
        };
        if i <= head.1 <= s.len() {
            match subclasses(s, head.1, head.0, allow_not) {
                Some((parts, k)) => if parts.len() > 0 {
                    Some((parts, k))
                } else {
                    None
                },
                None => None,
            }
        } else {
            None
        }
    } else {
        None
    }
}

/// `#`, `.`, `[` or `:` begins a subclass selector.
pub open spec fn starts_subclass(c: char) -> bool {
    c == '#' || c == '.' || c == '[' || c == ':'
}

/// The subclass selectors from `i` on, after `acc`.
pub open spec fn subclasses(s: Seq<char>, i: int, acc: Seq<SimpleV>, allow_not: bool) -> Option<
    (Seq<SimpleV>, int),
>
    decreases (if allow_not {
        1int
    } else {
        0int
    }), s.len() - i, 4int,
{
    if 0 <= i < s.len() && starts_subclass(s[i]) {
        match subclass_at(s, i, allow_not) {
            Some((x, j)) => if i < j <= s.len() {
                subclasses(s, j, acc.push(x), allow_not)
            } else {
                None
            },
            None => None,
        }
    } else if 0 <= i <= s.len() {
        Some((acc, i))
    } else {
        None
    }
}

/// One subclass selector at `i`.
pub open spec fn subclass_at(s: Seq<char>, i: int, allow_not: bool) -> Option<(SimpleV, int)>
    decreases (if allow_not {
        1int
    } else {
        0int
    }), s.len() - i, 3int,
{
    if 0 <= i < s.len() && (s[i] == '#' || s[i] == '.') {
        match ident_end(s, i + 1) {
            Some(e) => {
                let v = s.subrange(i + 1, e);
                Some(
                    (
                        SimpleV::Basic(
                            if s[i] == '#' {
                                BasicV::Id(v)
                            } else {
                                BasicV::Class(v)
                            },
                        ),
                        e,
                    ),
                )
            },
            None => None,
        }
    } else if 0 <= i < s.len() && s[i] == '[' {
        match attr_at(s, i) {
            Some((b, e)) => Some((SimpleV::Basic(b), e)),
            None => None,
        }
    } else if 0 <= i < s.len() && s[i] == ':' {
        pseudo_at(s, i, allow_not)
    } else {
        None
    }
}

/// A pseudo-class at the `:` at `i`.
pub open spec fn pseudo_at(s: Seq<char>, i: int, allow_not: bool) -> Option<(SimpleV, int)>
    decreases (if allow_not {
        1int
    } else {
        0int
    }), s.len() - i, 2int,
{
    if 0 <= i && i + 1 < s.len() && s[i + 1] == ':' {
        match ident_end(s, i + 2) {
            Some(e) => if is_pseudo_element(lower_seq(s.subrange(i + 2, e))) {
                Some((SimpleV::Basic(BasicV::Pseudo(PseudoKind::PseudoElement, 0, 0)), e))
            } else {
                None
            },
            None => None,
        }
    } else if 0 <= i < s.len() {
        match ident_end(s, i + 1) {
            None => None,
            Some(e) => {
                let name = lower_seq(s.subrange(i + 1, e));
                if e < s.len() && s[e] == '(' {
                    if name == "not"@ {
                        if allow_not && e < s.len() {
                            match not_args(s, e + 1) {
                                Some((list, f)) => Some((SimpleV::Not(list), f)),
                                None => None,
                            }
                        } else {
                            None
                        }
                    } else if name == "is"@ || name == "where"@ || name == "has"@ {
                        if allow_not && e < s.len() {
                            match not_args(s, e + 1) {
                                Some((list, f)) => Some(
                                    (
                                        if name == "has"@ {
                                            SimpleV::Has(list)
                                        } else {
                                            SimpleV::Is(list)
                                        },
                                        f,
                                    ),
                                ),
                                None => None,
                            }
                        } else {
                            None
                        }
                    } else if name == "lang"@ {
                        match lang_arg(s, e + 1) {
                            Some((r, f)) => Some((SimpleV::Basic(BasicV::Lang(r)), f)),
                            None => None,
                        }
                    } else {
                        match nth_keyword(name) {
                            Some(k) => match nth_at(s, e + 1) {
                                Some((a, b, f)) => Some(
                                    (SimpleV::Basic(BasicV::Pseudo(k, a, b)), f),
                                ),
                                None => None,
                            },
                            None => None,
                        }
                    }
                } else {
                    match pseudo_keyword(name) {
                        Some(k) => Some((SimpleV::Basic(BasicV::Pseudo(k, 0, 0)), e)),
                        None => None,
                    }
                }
            },
        }
    } else {
        None
    }
}

/// The language range inside `:lang(`, from `i`, through the `)`: an
/// identifier or a quoted string.
pub open spec fn lang_arg(s: Seq<char>, i: int) -> Option<(Seq<char>, int)> {
    let p = skip_ws(s, i);
    match value_at(s, p) {
        Some((r, f)) => {
            let q = skip_ws(s, f);
            if 0 <= q < s.len() && s[q] == ')' {
                Some((r, q + 1))
            } else {
                None
            }
        },
        None => None,
    }
}

/// The compound selectors inside `:not(`, from `i`, through the `)`.
pub open spec fn not_args(s: Seq<char>, i: int) -> Option<(Seq<Seq<BasicV>>, int)>
    decreases 1int, s.len() - i, 1int,
{
    let p = skip_ws(s, i);
    if 0 <= i <= p <= s.len() {
        match compound_at(s, p, false) {
            Some((c, e)) => {
                let j = skip_ws(s, e);
                if i < j <= s.len() {
                    not_rest(s, j, seq![to_basics(c)])
                } else {
                    None
                }
            },
            None => None,
        }
    } else {
        None
    }
}

/// More compound selectors inside `:not(..)`, each after a comma, then `)`.
pub open spec fn not_rest(s: Seq<char>, i: int, acc: Seq<Seq<BasicV>>) -> Option<
    (Seq<Seq<BasicV>>, int),
>
    decreases 1int, s.len() - i, 0int,
{
    if 0 <= i < s.len() && s[i] == ',' {
        let p = skip_ws(s, i + 1);
        if i < p <= s.len() {
            match compound_at(s, p, false) {
                Some((c, e)) => {
                    let j = skip_ws(s, e);
                    if i < j <= s.len() {
                        not_rest(s, j, acc.push(to_basics(c)))
                    } else {
                        None
                    }
                },
                None => None,
            }
        } else {
            None
        }
    } else if 0 <= i < s.len() && s[i] == ')' {
        Some((acc, i + 1))
    } else {
        None
    }
}

/// A character that can begin a compound selector.
pub open spec fn starts_compound(c: char) -> bool {
    c == '*' || starts_subclass(c) || is_name_start(c) || c == '-'
}

/// A complex selector at `i`.
#[verifier::opaque]
pub open spec fn complex_at(s: Seq<char>, i: int) -> Option<(ComplexV, int)> {
    match compound_at(s, i, true) {
        Some((c, e)) => complex_rest(
            s,
            e,
            ComplexV { compounds: seq![c], combinators: Seq::empty() },
        ),
        None => None,
    }
}

/// More combinators and compounds of a complex selector from `i` on.
pub open spec fn complex_rest(s: Seq<char>, i: int, acc: ComplexV) -> Option<(ComplexV, int)>
    decreases s.len() - i,
{
    if 0 <= i <= s.len() {
        let j = skip_ws(s, i);
        if j < s.len() && (s[j] == '>' || s[j] == '+' || s[j] == '~') {
            let comb = if s[j] == '>' {
                Combinator::Child
            } else if s[j] == '+' {
                Combinator::NextSibling
            } else {
                Combinator::SubsequentSibling
            };
            match compound_at(s, skip_ws(s, j + 1), true) {
                Some((c, e)) => if i < e <= s.len() {
                    complex_rest(
                        s,
                        e,
                        ComplexV {
                            compounds: acc.compounds.push(c),
                            combinators: acc.combinators.push(comb),
                        },
                    )
                } else {
                    None
                },
                None => None,
            }
        } else if i < j < s.len() && starts_compound(s[j]) {
            match compound_at(s, j, true) {
                Some((c, e)) => if i < e <= s.len() {
                    complex_rest(
                        s,
                        e,
                        ComplexV {
                            compounds: acc.compounds.push(c),
                            combinators: acc.combinators.push(Combinator::Descendant),
                        },
                    )
                } else {
                    None
                },
                None => None,
            }
        } else {
            Some((acc, i))
        }
    } else {
        None
    }
}

/// More complex selectors of a list from `i` on, each after a comma.
pub open spec fn list_rest(s: Seq<char>, i: int, acc: Seq<ComplexV>) -> Option<Seq<ComplexV>>
    decreases s.len() - i,
{
    if 0 <= i < s.len() && s[i] == ',' {
        match complex_at(s, skip_ws(s, i + 1)) {
            Some((c, e)) => {
                let j = skip_ws(s, e);
                if i < j <= s.len() {
                    list_rest(s, j, acc.push(c))
                } else {
                    None
                }
            },
            None => None,
        }
    } else if i == s.len() {
        Some(acc)
    } else {
        None
    }
}

/// The selector list that the whole of `s` spells, if it spells one.
pub open spec fn parse_list(s: Seq<char>) -> Option<Seq<ComplexV>> {
    match complex_at(s, skip_ws(s, 0)) {
        Some((c, e)) => list_rest(s, skip_ws(s, e), seq![c]),
        None => None,
    }
}

// ---------------------------------------------------------------------------
// Executable parser
// ---------------------------------------------------------------------------

fn keyword_is(name: &Vec<char>, kw: &str) -> (r: bool)
    ensures
        r == (name@ == kw@),
{
    let k = str_to_vec(kw);
    vec_eq(name, &k)
}

fn pseudo_keyword_exec(name: &Vec<char>) -> (r: Option<PseudoKind>)
    ensures
        r == pseudo_keyword(name@),
{
    if keyword_is(name, "first-child") {
        Some(PseudoKind::FirstChild)
    } else if keyword_is(name, "last-child") {
        Some(PseudoKind::LastChild)
    } else if keyword_is(name, "only-child") {
        Some(PseudoKind::OnlyChild)
    } else if keyword_is(name, "first-of-type") {
        Some(PseudoKind::FirstOfType)
    } else if keyword_is(name, "last-of-type") {
        Some(PseudoKind::LastOfType)
    } else if keyword_is(name, "only-of-type") {
        Some(PseudoKind::OnlyOfType)
    } else if keyword_is(name, "empty") {
        Some(PseudoKind::Empty)
    } else if keyword_is(name, "root") {
        Some(PseudoKind::Root)
    } else if keyword_is(name, "link") {
        Some(PseudoKind::Link)
    } else if keyword_is(name, "any-link") {
        Some(PseudoKind::AnyLink)
    } else if keyword_is(name, "checked") {
        Some(PseudoKind::Checked)
    } else if keyword_is(name, "disabled") {
        Some(PseudoKind::Disabled)
    } else if keyword_is(name, "enabled") {
        Some(PseudoKind::Enabled)
    } else if keyword_is(name, "before") || keyword_is(name, "after") || keyword_is(name, "first-line")
        || keyword_is(name, "first-letter") {
        Some(PseudoKind::PseudoElement)
    } else if keyword_is(name, "required") {
        Some(PseudoKind::Required)
    } else if keyword_is(name, "optional") {
        Some(PseudoKind::Optional)
    } else if dynamic_pseudo_exec(name) {
        Some(PseudoKind::Dynamic)
    } else {
        None
    }
}

fn dynamic_pseudo_exec(name: &Vec<char>) -> (r: bool)
    ensures
        r == is_dynamic_pseudo(name@),
{
    keyword_is(name, "hover") || keyword_is(name, "active") || keyword_is(name, "focus")
        || keyword_is(name, "focus-visible") || keyword_is(name, "focus-within") || keyword_is(
        name,
        "visited",
    ) || keyword_is(name, "target") || keyword_is(name, "target-within") || keyword_is(
        name,
        "current",
    ) || keyword_is(name, "past") || keyword_is(name, "future") || keyword_is(name, "playing")
        || keyword_is(name, "paused") || keyword_is(name, "fullscreen")
}

fn pseudo_element_exec(name: &Vec<char>) -> (r: bool)
    ensures
        r == is_pseudo_element(name@),
{
    keyword_is(name, "before") || keyword_is(name, "after") || keyword_is(name, "first-line")
        || keyword_is(name, "first-letter") || keyword_is(name, "selection") || keyword_is(
        name,
        "placeholder",
    ) || keyword_is(name, "marker") || keyword_is(name, "backdrop")
}

fn nth_keyword_exec(name: &Vec<char>) -> (r: Option<PseudoKind>)
    ensures
        r == nth_keyword(name@),
{
    if keyword_is(name, "nth-child") {
        Some(PseudoKind::NthChild)
    } else if keyword_is(name, "nth-last-child") {
        Some(PseudoKind::NthLastChild)
    } else if keyword_is(name, "nth-of-type") {
        Some(PseudoKind::NthOfType)
    } else if keyword_is(name, "nth-last-of-type") {
        Some(PseudoKind::NthLastOfType)
    } else {
        None
    }
}

fn value_exec(s: &Vec<char>, i: usize) -> (r: Option<(Vec<char>, usize)>)
    requires
        i <= s.len(),
    ensures
        r matches Some((v, e)) ==> value_at(s@, i as int) == Some((v@, e as int)) && e <= s.len(),
        r is None ==> value_at(s@, i as int) is None,
{
    if i < s.len() && (s[i] == '"' || s[i] == '\'') {
        let e = find_char_exec(s, i + 1, s[i]);
        if e < s.len() {
            Some((slice_vec(s, i + 1, e), e + 1))
        } else {
            None
        }
    } else {
        match ident_end_exec(s, i) {
            Some(e) => Some((slice_vec(s, i, e), e)),
            None => None,
        }
    }
}

fn op_exec(s: &Vec<char>, b: usize) -> (r: Option<(AttrOp, usize)>)
    requires
        b <= s.len(),
    ensures
        r matches Some((op, c)) ==> op_at(s@, b as int) == Some((op, c as int)) && c <= s.len(),
        r is None ==> op_at(s@, b as int) is None,
{
    if b < s.len() && s[b] == '=' {
        Some((AttrOp::Equals, b + 1))
    } else if b < s.len() && b + 1 < s.len() && s[b + 1] == '=' {
        if s[b] == '~' {
            Some((AttrOp::Includes, b + 2))
        } else if s[b] == '|' {
            Some((AttrOp::DashMatch, b + 2))
        } else if s[b] == '^' {
            Some((AttrOp::Prefix, b + 2))
        } else if s[b] == '$' {
            Some((AttrOp::Suffix, b + 2))
        } else if s[b] == '*' {
            Some((AttrOp::Substring, b + 2))
        } else {
            None
        }
    } else {
        None
    }
}

fn flag_exec(s: &Vec<char>, g: usize) -> (r: (bool, usize))
    requires
        g <= s.len(),
    ensures
        flag_at(s@, g as int) == (r.0, r.1 as int),
        r.1 <= s.len(),
{
    if g < s.len() && scan_name_exec(s, g) == g + 1 && (s[g] == 'i' || s[g] == 'I') {
        (true, skip_ws_exec(s, g + 1))
    } else if g < s.len() && scan_name_exec(s, g) == g + 1 && (s[g] == 's' || s[g] == 'S') {
        (false, skip_ws_exec(s, g + 1))
    } else {
        (false, g)
    }
}

fn attr_exec(s: &Vec<char>, i: usize) -> (r: Option<(Basic, usize)>)
    requires
        i < s.len(),
    ensures
        r matches Some((b, e)) ==> attr_at(s@, i as int) == Some((b@, e as int)) && e <= s.len(),
        r is None ==> attr_at(s@, i as int) is None,
{
    let a = skip_ws_exec(s, i + 1);
    let e = match ident_end_exec(s, a) {
        Some(e) => e,
        None => {
            return None;
        },
    };
    let raw = slice_vec(s, a, e);
    let name = to_lower_vec(&raw);
    let b = skip_ws_exec(s, e);
    if b < s.len() && s[b] == ']' {
        let empty: Vec<char> = Vec::new();
        assert(empty@ =~= Seq::<char>::empty());
        return Some((Basic::Attr(name, AttrOp::Exists, empty, false), b + 1));
    }
    let (op, c) = match op_exec(s, b) {
        Some(x) => x,
        None => {
            return None;
        },
    };
    let c2 = skip_ws_exec(s, c);
    let (v, f) = match value_exec(s, c2) {
        Some(x) => x,
        None => {
            return None;
        },
    };
    let g = skip_ws_exec(s, f);
    let fl = flag_exec(s, g);
    if fl.1 < s.len() && s[fl.1] == ']' {
        Some((Basic::Attr(name, op, v, fl.0), fl.1 + 1))
    } else {
        None
    }
}

fn nth_exec(s: &Vec<char>, i: usize) -> (r: Option<(i64, i64, usize)>)
    requires
        i <= s.len(),
    ensures
        r matches Some((a, b, f)) ==> nth_at(s@, i as int) == Some((a as int, b as int, f as int))
            && f <= s.len(),
        r is None ==> nth_at(s@, i as int) is None,
{
    let p = skip_ws_exec(s, i);
    let kw: Vec<char> = match ident_end_exec(s, p) {
        Some(e) => {
            let raw = slice_vec(s, p, e);
            to_lower_vec(&raw)
        },
        None => Vec::new(),
    };
    assert(kw@ =~= match ident_end(s@, p as int) {
        Some(e) => lower_seq(s@.subrange(p as int, e)),
        None => Seq::empty(),
    });
    let is_odd = keyword_is(&kw, "odd");
    let is_even = keyword_is(&kw, "even");
    if is_odd || is_even {
        proof {
            reveal_strlit("odd");
            reveal_strlit("even");
        }
        let e = match ident_end_exec(s, p) {
            Some(e) => e,
            None => {
                assert(kw@ =~= Seq::<char>::empty());
                return None;
            },
        };
        let q = skip_ws_exec(s, e);
        if q < s.len() && s[q] == ')' {
            return Some((2, if is_odd {
                1
            } else {
                0
            }, q + 1));
        } else {
            return None;
        }
    }
    let negative = p < s.len() && s[p] == '-';

    let p1 = if p < s.len() && (s[p] == '+' || s[p] == '-') {
        p + 1
    } else {
        p
    };
    let de = scan_digits_exec(s, p1);
    proof {
        lemma_scan_digits(s@, p1 as int);
    }
    if de - p1 > 9 {
        return None;
    }
    if de < s.len() && (s[de] == 'n' || s[de] == 'N') {
        let mag: i64 = if de > p1 {
            digits_value_exec(s, p1, de)
        } else {
            1
        };
        let a: i64 = if negative {
            -mag
        } else {
            mag
        };

        let q = skip_ws_exec(s, de + 1);
        if q < s.len() && (s[q] == '+' || s[q] == '-') {
            let r = skip_ws_exec(s, q + 1);
            let de2 = scan_digits_exec(s, r);
            proof {
                lemma_scan_digits(s@, r as int);
            }
            if de2 == r || de2 - r > 9 {
                return None;
            }
            let bv = digits_value_exec(s, r, de2);
            let b: i64 = if s[q] == '-' {
                -bv
            } else {
                bv
            };

            let f = skip_ws_exec(s, de2);
            if f < s.len() && s[f] == ')' {
                Some((a, b, f + 1))
            } else {
                None
            }
        } else if q < s.len() && s[q] == ')' {
            Some((a, 0, q + 1))
        } else {
            None
        }
    } else if de > p1 {
        let f = skip_ws_exec(s, de);
        if f < s.len() && s[f] == ')' {
            let mag = digits_value_exec(s, p1, de);
            let b: i64 = if negative {
                -mag
            } else {
                mag
            };

            Some((0, b, f + 1))
        } else {
            None
        }
    } else {
        None
    }
}

fn starts_subclass_exec(c: char) -> (r: bool)
    ensures
        r == starts_subclass(c),
{
    c == '#' || c == '.' || c == '[' || c == ':'
}

fn into_basics(c: Vec<Simple>) -> (r: Vec<Basic>)
    ensures
        basics_view(r) == to_basics(compound_view(c)),
{
    let ghost whole = compound_view(c);
    let mut rest = c;
    let mut out: Vec<Basic> = Vec::new();
    let ghost done: int = 0;
    while rest.len() > 0
        invariant
            whole.len() == done + rest@.len(),
            0 <= done,
            compound_view(rest) == whole.subrange(done, whole.len() as int),
            basics_view(out) == to_basics(whole.subrange(0, done)),
        decreases rest.len(),
    {
        let ghost before = compound_view(rest);
        let x = rest.remove(0);
        assert(before[0] == x@);
        assert(compound_view(rest) =~= before.subrange(1, before.len() as int));
        let b = match x {
            Simple::Basic(b) => b,
            _ => Basic::Universal,
        };
        assert(b@ == to_basic(x@));
        let ghost out_before = basics_view(out);
        out.push(b);
        assert(basics_view(out) =~= out_before.push(b@));
        proof {
            assert(whole[done] == x@);
            done = done + 1;
        }
        assert(to_basics(whole.subrange(0, done)) =~= to_basics(whole.subrange(0, done - 1)).push(
            to_basic(whole[done - 1]),
        ));
        assert(compound_view(rest) =~= whole.subrange(done, whole.len() as int));
    }
    assert(whole.subrange(0, done) =~= whole);
    out
}

#[verifier::loop_isolation(false)]
fn compound_parse(s: &Vec<char>, i: usize, allow_not: bool) -> (r: Option<(Vec<Simple>, usize)>)
    requires
        i <= s.len(),
    ensures
        r matches Some((c, e)) ==> compound_at(s@, i as int, allow_not) == Some(
            (compound_view(c), e as int),
        ) && e <= s.len(),
        r is None ==> compound_at(s@, i as int, allow_not) is None,
    decreases (if allow_not {
        1int
    } else {
        0int
    }), s.len() - i, 5int,
{
    let mut parts: Vec<Simple> = Vec::new();
    let mut j: usize = i;
    if i < s.len() && s[i] == '*' {
        parts.push(Simple::Basic(Basic::Universal));
        j = i + 1;
    } else {
        match ident_end_exec(s, i) {
            Some(e) => {
                let raw = slice_vec(s, i, e);
                let t = to_lower_vec(&raw);
                parts.push(Simple::Basic(Basic::Type(t)));
                j = e;
            },
            None => {},
        }
    }
    let ghost head: (Seq<SimpleV>, int) = (compound_view(parts), j as int);
    let ghost spec_head: (Seq<SimpleV>, int) = if i < s.len() && s@[i as int] == '*' {
        (seq![SimpleV::Basic(BasicV::Universal)], i + 1)
    } else {
        match ident_end(s@, i as int) {
            Some(e) => (seq![SimpleV::Basic(BasicV::Type(lower_seq(s@.subrange(i as int, e))))], e),
            None => (Seq::empty(), i as int),
        }
    };
    assert(head.0 =~= spec_head.0);
    assert(head == spec_head);
    loop
        invariant
            i <= head.1 <= j <= s.len(),
            subclasses(s@, head.1, head.0, allow_not) == subclasses(
                s@,
                j as int,
                compound_view(parts),
                allow_not,
            ),
        decreases s.len() - j,
    {
        if j < s.len() && starts_subclass_exec(s[j]) {
            match subclass_parse(s, j, allow_not) {
                Some((x, k)) => {
                    if j < k && k <= s.len() {
                        let ghost before = compound_view(parts);
                        parts.push(x);
                        assert(compound_view(parts) =~= before.push(x@));
                        j = k;
                    } else {
                        return None;
                    }
                },
                None => {
                    return None;
                },
            }
        } else {
            break ;
        }
    }
    if parts.len() > 0 {
        Some((parts, j))
    } else {
        None
    }
}

fn subclass_parse(s: &Vec<char>, i: usize, allow_not: bool) -> (r: Option<(Simple, usize)>)
    requires
        i < s.len(),
    ensures
        r matches Some((x, e)) ==> subclass_at(s@, i as int, allow_not) == Some((x@, e as int))
            && e <= s.len(),
        r is None ==> subclass_at(s@, i as int, allow_not) is None,
    decreases (if allow_not {
        1int
    } else {
        0int
    }), s.len() - i, 3int,
{
    if s[i] == '#' || s[i] == '.' {
        match ident_end_exec(s, i + 1) {
            Some(e) => {
                let v = slice_vec(s, i + 1, e);
                let b = if s[i] == '#' {
                    Basic::Id(v)
                } else {
                    Basic::Class(v)
                };
                Some((Simple::Basic(b), e))
            },
            None => None,
        }
    } else if s[i] == '[' {
        match attr_exec(s, i) {
            Some((b, e)) => Some((Simple::Basic(b), e)),
            None => None,
        }
    } else if s[i] == ':' {
        pseudo_parse(s, i, allow_not)
    } else {
        None
    }
}

fn pseudo_parse(s: &Vec<char>, i: usize, allow_not: bool) -> (r: Option<(Simple, usize)>)
    requires
        i < s.len(),
    ensures
        r matches Some((x, e)) ==> pseudo_at(s@, i as int, allow_not) == Some((x@, e as int))
            && e <= s.len(),
        r is None ==> pseudo_at(s@, i as int, allow_not) is None,
    decreases (if allow_not {
        1int
    } else {
        0int
    }), s.len() - i, 2int,
{
    if i + 1 < s.len() && s[i + 1] == ':' {
        return match ident_end_exec(s, i + 2) {
            Some(e) => {
                let raw = slice_vec(s, i + 2, e);
                let name = to_lower_vec(&raw);
                if pseudo_element_exec(&name) {
                    Some((Simple::Basic(Basic::Pseudo(PseudoKind::PseudoElement, 0, 0)), e))
                } else {
                    None
                }
            },
            None => None,
        };
    }
    let e = match ident_end_exec(s, i + 1) {
        Some(e) => e,
        None => {
            return None;
        },
    };
    let raw = slice_vec(s, i + 1, e);
    let name = to_lower_vec(&raw);
    if e < s.len() && s[e] == '(' {
        if keyword_is(&name, "not") {
            if allow_not {
                match not_args_parse(s, e + 1) {
                    Some((list, f)) => Some((Simple::Not(list), f)),
                    None => None,
                }
            } else {
                None
            }
        } else if keyword_is(&name, "is") || keyword_is(&name, "where") || keyword_is(&name, "has") {
            if allow_not {
                let has = keyword_is(&name, "has");
                match not_args_parse(s, e + 1) {
                    Some((list, f)) => Some(
                        (
                            if has {
                                Simple::Has(list)
                            } else {
                                Simple::Is(list)
                            },
                            f,
                        ),
                    ),
                    None => None,
                }
            } else {
                None
            }
        } else if keyword_is(&name, "lang") {
            match lang_arg_parse(s, e + 1) {
                Some((r, f)) => Some((Simple::Basic(Basic::Lang(r)), f)),
                None => None,
            }
        } else {
            match nth_keyword_exec(&name) {
                Some(k) => match nth_exec(s, e + 1) {
                    Some((a, b, f)) => Some((Simple::Basic(Basic::Pseudo(k, a, b)), f)),
                    None => None,
                },
                None => None,
            }
        }
    } else {
        match pseudo_keyword_exec(&name) {
            Some(k) => Some((Simple::Basic(Basic::Pseudo(k, 0, 0)), e)),
            None => None,
        }
    }
}

fn lang_arg_parse(s: &Vec<char>, i: usize) -> (r: Option<(Vec<char>, usize)>)
    requires
        i <= s.len(),
    ensures
        r matches Some((v, e)) ==> lang_arg(s@, i as int) == Some((v@, e as int)) && e <= s.len(),
        r is None ==> lang_arg(s@, i as int) is None,
{
    let p = skip_ws_exec(s, i);
    match value_exec(s, p) {
        Some((v, f)) => {
            let q = skip_ws_exec(s, f);
            if q < s.len() && s[q] == ')' {
                Some((v, q + 1))
            } else {
                None
            }
        },
        None => None,
    }
}

fn not_args_parse(s: &Vec<char>, i: usize) -> (r: Option<(Vec<Vec<Basic>>, usize)>)
    requires
        i <= s.len(),
    ensures
        r matches Some((l, e)) ==> not_args(s@, i as int) == Some(
            (l@.map_values(|c: Vec<Basic>| basics_view(c)), e as int),
        ) && e <= s.len(),
        r is None ==> not_args(s@, i as int) is None,
    decreases 1int, s.len() - i, 1int,
{
    let p = skip_ws_exec(s, i);
    let (c, e) = match compound_parse(s, p, false) {
        Some(x) => x,
        None => {
            return None;
        },
    };
    let mut j = skip_ws_exec(s, e);
    if !(i < j) {
        return None;
    }
    let mut list: Vec<Vec<Basic>> = Vec::new();
    let ghost cv = compound_view(c);
    list.push(into_basics(c));
    assert(list@.map_values(|c: Vec<Basic>| basics_view(c)) =~= seq![to_basics(cv)]);
    loop
        invariant
            i < j <= s.len(),
            not_args(s@, i as int) == not_rest(
                s@,
                j as int,
                list@.map_values(|c: Vec<Basic>| basics_view(c)),
            ),
        decreases s.len() - j,
    {
        if j < s.len() && s[j] == ',' {
            let p2 = skip_ws_exec(s, j + 1);
            let (c2, e2) = match compound_parse(s, p2, false) {
                Some(x) => x,
                None => {
                    return None;
                },
            };
            let j2 = skip_ws_exec(s, e2);
            if !(j < j2) {
                return None;
            }
            let ghost before = list@.map_values(|c: Vec<Basic>| basics_view(c));
            let ghost cv2 = compound_view(c2);
            list.push(into_basics(c2));
            assert(list@.map_values(|c: Vec<Basic>| basics_view(c)) =~= before.push(
                to_basics(cv2),
            ));
            j = j2;
        } else if j < s.len() && s[j] == ')' {
            return Some((list, j + 1));
        } else {
            return None;
        }
    }
}

fn starts_compound_exec(c: char) -> (r: bool)
    ensures
        r == starts_compound(c),
{
    c == '*' || starts_subclass_exec(c) || name_start(c) || c == '-'
}

fn complex_parse(s: &Vec<char>, i: usize) -> (r: Option<(Complex, usize)>)
    requires
        i <= s.len(),
    ensures
        r matches Some((c, e)) ==> complex_at(s@, i as int) == Some((c@, e as int)) && e <= s.len()
            && crate::selector::complex_shape(c@),
        r is None ==> complex_at(s@, i as int) is None,
{
    reveal(complex_at);
    let (first, e) = match compound_parse(s, i, true) {
        Some(x) => x,
        None => {
            return None;
        },
    };
    let ghost fv = compound_view(first);
    let mut compounds: Vec<Vec<Simple>> = Vec::new();
    compounds.push(first);
    let acc = Complex { compounds, combinators: Vec::new() };
    assert(acc@.compounds =~= seq![fv]);
    assert(acc@.combinators =~= Seq::<Combinator>::empty());
    assert(acc@ == ComplexV { compounds: seq![fv], combinators: Seq::empty() });
    complex_rest_parse(s, e, acc)
}

fn complex_rest_parse(s: &Vec<char>, j0: usize, acc0: Complex) -> (r: Option<(Complex, usize)>)
    requires
        j0 <= s.len(),
        crate::selector::complex_shape(acc0@),
    ensures
        r matches Some((c, e)) ==> complex_rest(s@, j0 as int, acc0@) == Some((c@, e as int)) && e
            <= s.len() && crate::selector::complex_shape(c@),
        r is None ==> complex_rest(s@, j0 as int, acc0@) is None,
{
    let mut acc = acc0;
    let mut j = j0;
    loop
        invariant
            j <= s.len(),
            complex_rest(s@, j0 as int, acc0@) == complex_rest(s@, j as int, acc@),
            crate::selector::complex_shape(acc@),
        decreases s.len() - j,
    {
        let k = skip_ws_exec(s, j);
        let ghost a = acc@;
        if k < s.len() && (s[k] == '>' || s[k] == '+' || s[k] == '~') {
            let comb = if s[k] == '>' {
                Combinator::Child
            } else if s[k] == '+' {
                Combinator::NextSibling
            } else {
                Combinator::SubsequentSibling
            };
            let p = skip_ws_exec(s, k + 1);
            let (c, e2) = match compound_parse(s, p, true) {
                Some(x) => x,
                None => {
                    return None;
                },
            };
            if !(j < e2 && e2 <= s.len()) {
                return None;
            }
            let ghost cv = compound_view(c);
            acc.compounds.push(c);
            acc.combinators.push(comb);
            assert(acc@.compounds =~= a.compounds.push(cv));
            assert(acc@.combinators =~= a.combinators.push(comb));
            assert(acc@ == ComplexV {
                compounds: a.compounds.push(cv),
                combinators: a.combinators.push(comb),
            });
            j = e2;
        } else if j < k && k < s.len() && starts_compound_exec(s[k]) {
            let (c, e2) = match compound_parse(s, k, true) {
                Some(x) => x,
                None => {
                    return None;
                },
            };
            if !(j < e2 && e2 <= s.len()) {
                return None;
            }
            let ghost cv = compound_view(c);
            acc.compounds.push(c);
            acc.combinators.push(Combinator::Descendant);
            assert(acc@.compounds =~= a.compounds.push(cv));
            assert(acc@.combinators =~= a.combinators.push(Combinator::Descendant));
            assert(acc@ == ComplexV {
                compounds: a.compounds.push(cv),
                combinators: a.combinators.push(Combinator::Descendant),
            });
            j = e2;
        } else {
            return Some((acc, j));
        }
    }
}

/// Parses a selector list; `None` when the text is not one.
pub fn parse_selector_list(text: &Vec<char>) -> (r: Option<Vec<Complex>>)
    ensures
        r matches Some(l) ==> parse_list(text@) == Some(list_view(l)) && crate::selector::list_shape(
            list_view(l),
        ),
        r is None ==> parse_list(text@) is None,
{
    let s = text;
    let p = skip_ws_exec(s, 0);
    let (c, e) = match complex_parse(s, p) {
        Some(x) => x,
        None => {
            return None;
        },
    };
    let ghost cv = c@;
    let mut list: Vec<Complex> = Vec::new();
    list.push(c);
    assert(list_view(list) =~= seq![cv]);
    let mut j = skip_ws_exec(s, e);
    loop
        invariant
            j <= s.len(),
            s == text,
            parse_list(s@) == list_rest(s@, j as int, list_view(list)),
            crate::selector::list_shape(list_view(list)),
        decreases s.len() - j,
    {
        if j < s.len() && s[j] == ',' {
            let p2 = skip_ws_exec(s, j + 1);
            let (c2, e2) = match complex_parse(s, p2) {
                Some(x) => x,
                None => {
                    assert(list_rest(s@, j as int, list_view(list)) is None);
                    return None;
                },
            };
            let j2 = skip_ws_exec(s, e2);
            if !(j < j2) {
                return None;
            }
            let ghost before = list_view(list);
            let ghost cv2 = c2@;
            list.push(c2);
            assert(list_view(list) =~= before.push(cv2));
            j = j2;
        } else if j == s.len() {
            assert(list_rest(s@, j as int, list_view(list)) == Some(list_view(list)));
            return Some(list);
        } else {
            return None;
        }
    }
}

} // verus!
