//! Character-level helpers shared by the document model, the selector engine
//! and the HTML parser: whitespace classes, ASCII case folding, trimming,
//! splitting, and conversions between `&str`, `String` and `Vec<char>`.

use vstd::prelude::*;

verus! {

/// ASCII whitespace as `str::split_ascii_whitespace` and the HTML
/// specification define it: space, tab, line feed, form feed, carriage return.
pub open spec fn is_ascii_ws(c: char) -> bool {
    c == ' ' || c == '\t' || c == '\n' || c == '\x0C' || c == '\r'
}

pub fn ascii_ws(c: char) -> (b: bool)
    ensures
        b == is_ascii_ws(c),
{
    c == ' ' || c == '\t' || c == '\n' || c == '\x0C' || c == '\r'
}

/// ASCII lower-casing of one character.
pub open spec fn lower_char(c: char) -> char {
    if 'A' <= c && c <= 'Z' {
        ((c as u32) + 32) as char
    } else {
        c
    }
}

pub fn to_lower_char(c: char) -> (r: char)
    ensures
        r == lower_char(c),
{
    if 'A' <= c && c <= 'Z' {
        let v: u8 = c as u8;
        let w: u8 = v + 32;
        w as char
    } else {
        c
    }
}


/// ASCII lower-casing of a whole sequence.
pub open spec fn lower_seq(s: Seq<char>) -> Seq<char> {
    s.map_values(|c: char| lower_char(c))
}

pub fn to_lower_vec(s: &Vec<char>) -> (r: Vec<char>)
    ensures
        r@ == lower_seq(s@),
{
    let mut r: Vec<char> = Vec::new();
    let mut i: usize = 0;
    while i < s.len()
        invariant
            i <= s.len(),
            r@ == lower_seq(s@.subrange(0, i as int)),
        decreases s.len() - i,
    {
        let c = to_lower_char(s[i]);
        r.push(c);
        i = i + 1;
        assert(lower_seq(s@.subrange(0, i as int)) =~= lower_seq(s@.subrange(0, i - 1)).push(c));
    }
    assert(s@.subrange(0, i as int) =~= s@);
    r
}

/// A character of a tag or attribute name as the tokenizer keeps it: ASCII
/// lower-cased, with NUL replaced by U+FFFD.
pub open spec fn name_char(c: char) -> char {
    if c == '\0' {
        '\u{FFFD}'
    } else {
        lower_char(c)
    }
}

/// A tag or attribute name as the tokenizer keeps it.
pub open spec fn name_seq(s: Seq<char>) -> Seq<char> {
    s.map_values(|c: char| name_char(c))
}

/// Names as the tokenizer keeps them are lower case and hold no NUL.
pub proof fn lemma_name_seq(s: Seq<char>)
    ensures
        lower_seq(name_seq(s)) == name_seq(s),
        !name_seq(s).contains('\0'),
{
    assert forall|i: int| 0 <= i < s.len() implies lower_char(name_char(s[i])) == name_char(s[i]) by {
        let c = s[i];
        if 'A' <= c && c <= 'Z' {
            assert(!('A' <= lower_char(c) && lower_char(c) <= 'Z'));
        }
    }
    assert(lower_seq(name_seq(s)) =~= name_seq(s));
    if name_seq(s).contains('\0') {
        let i = choose|i: int| 0 <= i < name_seq(s).len() && name_seq(s)[i] == '\0';
        assert(name_char(s[i]) == '\0');
    }
}

pub fn to_name_vec(s: &Vec<char>) -> (r: Vec<char>)
    ensures
        r@ == name_seq(s@),
{
    let mut r: Vec<char> = Vec::new();
    let mut i: usize = 0;
    while i < s.len()
        invariant
            i <= s.len(),
            r@ == name_seq(s@.subrange(0, i as int)),
        decreases s.len() - i,
    {
        let c = if s[i] == '\0' {
            '\u{FFFD}'
        } else {
            to_lower_char(s[i])
        };
        r.push(c);
        i = i + 1;
        assert(name_seq(s@.subrange(0, i as int)) =~= name_seq(s@.subrange(0, i - 1)).push(c));
    }
    assert(s@.subrange(0, i as int) =~= s@);
    r
}

/// Appends one character to a `String` (`String::push`).
#[verifier::external_body]
fn string_push(s: &mut String, c: char)
    ensures
        final(s)@ == old(s)@.push(c),
{
    s.push(c);
}

/// The characters of a string slice, in order.
pub fn str_to_vec(s: &str) -> (r: Vec<char>)
    ensures
        r@ == s@,
{
    broadcast use vstd::string::group_string_axioms;

    let mut r: Vec<char> = Vec::new();
    for c in it: s.chars()
        invariant
            r@ == it.seq().take(it.index() as int),
            it.seq() == s@,
    {
        r.push(c);
    }
    r
}

/// A `String` holding the given characters.
pub fn vec_to_string(v: &Vec<char>) -> (r: String)
    ensures
        r@ == v@,
{
    let mut r = String::new();
    let mut i: usize = 0;
    while i < v.len()
        invariant
            i <= v.len(),
            r@ == v@.subrange(0, i as int),
        decreases v.len() - i,
    {
        string_push(&mut r, v[i]);
        i = i + 1;
        assert(r@ =~= v@.subrange(0, i as int));
    }
    assert(v@.subrange(0, i as int) =~= v@);
    r
}


/// Unicode `White_Space`, the class that `str::trim` removes.
pub open spec fn is_unicode_ws(c: char) -> bool {
    ||| c == '\t' || c == '\n' || c == '\x0B' || c == '\x0C' || c == '\r' || c == ' '
    ||| c == '\u{85}' || c == '\u{A0}' || c == '\u{1680}'
    ||| ('\u{2000}' <= c && c <= '\u{200A}')
    ||| c == '\u{2028}' || c == '\u{2029}' || c == '\u{202F}' || c == '\u{205F}' || c == '\u{3000}'
}

pub fn unicode_ws(c: char) -> (b: bool)
    ensures
        b == is_unicode_ws(c),
{
    c == '\t' || c == '\n' || c == '\x0B' || c == '\x0C' || c == '\r' || c == ' ' || c
        == '\u{85}' || c == '\u{A0}' || c == '\u{1680}' || ('\u{2000}' <= c && c <= '\u{200A}')
        || c == '\u{2028}' || c == '\u{2029}' || c == '\u{202F}' || c == '\u{205F}' || c
        == '\u{3000}'
}

/// Index of the first character at or after `i` that is not white space.
pub open spec fn trim_start_from(s: Seq<char>, i: int) -> int
    decreases s.len() - i,
{
    if 0 <= i < s.len() && is_unicode_ws(s[i]) {
        trim_start_from(s, i + 1)
    } else {
        i
    }
}

/// One past the last character before `j` that is not white space.
pub open spec fn trim_end_from(s: Seq<char>, j: int) -> int
    decreases j,
{
    if 0 < j <= s.len() && is_unicode_ws(s[j - 1]) {
        trim_end_from(s, j - 1)
    } else {
        j
    }
}

/// `str::trim`: the sequence without leading and trailing white space.
pub open spec fn trim(s: Seq<char>) -> Seq<char> {
    let a = trim_start_from(s, 0);
    let b = trim_end_from(s, s.len() as int);
    if a < b {
        s.subrange(a, b)
    } else {
        Seq::empty()
    }
}

proof fn lemma_trim_start_bounds(s: Seq<char>, i: int)
    requires
        0 <= i <= s.len(),
    ensures
        i <= trim_start_from(s, i) <= s.len(),
        trim_start_from(s, i) < s.len() ==> !is_unicode_ws(s[trim_start_from(s, i)]),
        forall|k: int| i <= k < trim_start_from(s, i) ==> is_unicode_ws(#[trigger] s[k]),
    decreases s.len() - i,
{
    if i < s.len() && is_unicode_ws(s[i]) {
        lemma_trim_start_bounds(s, i + 1);
    }
}

pub(crate) proof fn lemma_trim_end_bounds(s: Seq<char>, j: int)
    requires
        0 <= j <= s.len(),
    ensures
        0 <= trim_end_from(s, j) <= j,
        trim_end_from(s, j) > 0 ==> !is_unicode_ws(s[trim_end_from(s, j) - 1]),
        forall|k: int| trim_end_from(s, j) <= k < j ==> is_unicode_ws(#[trigger] s[k]),
    decreases j,
{
    if 0 < j && is_unicode_ws(s[j - 1]) {
        lemma_trim_end_bounds(s, j - 1);
    }
}

pub fn trim_vec(s: &Vec<char>) -> (r: Vec<char>)
    ensures
        r@ == trim(s@),
{
    let mut a: usize = 0;
    while a < s.len() && unicode_ws(s[a])
        invariant
            a <= s.len(),
            trim_start_from(s@, 0) == trim_start_from(s@, a as int),
        decreases s.len() - a,
    {
        a = a + 1;
    }
    let mut b: usize = s.len();
    while b > 0 && unicode_ws(s[b - 1])
        invariant
            b <= s.len(),
            trim_end_from(s@, s@.len() as int) == trim_end_from(s@, b as int),
        decreases b,
    {
        b = b - 1;
    }
    let mut r: Vec<char> = Vec::new();
    if a < b {
        let mut k: usize = a;
        while k < b
            invariant
                a <= k <= b <= s.len(),
                r@ == s@.subrange(a as int, k as int),
            decreases b - k,
        {
            r.push(s[k]);
            k = k + 1;
            assert(r@ =~= s@.subrange(a as int, k as int));
        }
    }
    assert(r@ =~= trim(s@));
    r
}

/// Words of `s` separated by ASCII white space (`str::split_ascii_whitespace`),
/// with `cur` the word read so far.
pub open spec fn split_ws_acc(s: Seq<char>, cur: Seq<char>) -> Seq<Seq<char>>
    decreases s.len(),
{
    if s.len() == 0 {
        if cur.len() > 0 {
            seq![cur]
        } else {
            Seq::empty()
        }
    } else if is_ascii_ws(s[0]) {
        (if cur.len() > 0 {
            seq![cur]
        } else {
            Seq::<Seq<char>>::empty()
        }) + split_ws_acc(s.drop_first(), Seq::empty())
    } else {
        split_ws_acc(s.drop_first(), cur.push(s[0]))
    }
}

/// `str::split_ascii_whitespace`: the non-empty runs of non-white-space
/// characters, in order.
pub open spec fn split_ascii_ws(s: Seq<char>) -> Seq<Seq<char>> {
    split_ws_acc(s, Seq::empty())
}

pub fn split_ascii_ws_vec(s: &Vec<char>) -> (r: Vec<Vec<char>>)
    ensures
        r@.map_values(|w: Vec<char>| w@) == split_ascii_ws(s@),
{
    let mut r: Vec<Vec<char>> = Vec::new();
    let mut cur: Vec<char> = Vec::new();
    let mut i: usize = 0;
    assert(s@.skip(0) =~= s@);
    while i < s.len()
        invariant
            i <= s.len(),
            split_ascii_ws(s@) == r@.map_values(|w: Vec<char>| w@) + split_ws_acc(
                s@.skip(i as int),
                cur@,
            ),
        decreases s.len() - i,
    {
        let c = s[i];
        let ghost t = s@.skip(i as int);
        let ghost cur0 = cur@;
        let ghost r0 = r@.map_values(|w: Vec<char>| w@);
        assert(t.drop_first() =~= s@.skip(i + 1));
        assert(t[0] == c);
        if ascii_ws(c) {
            assert(split_ws_acc(t, cur0) == (if cur0.len() > 0 {
                seq![cur0]
            } else {
                Seq::<Seq<char>>::empty()
            }) + split_ws_acc(t.drop_first(), Seq::empty()));
            if cur.len() > 0 {
                r.push(cur);
                assert(r@.map_values(|w: Vec<char>| w@) =~= r0 + seq![cur0]);
                cur = Vec::new();
                assert(cur@ =~= Seq::<char>::empty());
            } else {
                assert(cur@ =~= Seq::<char>::empty());
            }
            assert(r0 + split_ws_acc(t, cur0) =~= r@.map_values(|w: Vec<char>| w@) + split_ws_acc(
                s@.skip(i + 1),
                cur@,
            ));
        } else {
            assert(split_ws_acc(t, cur0) == split_ws_acc(t.drop_first(), cur0.push(c)));
            cur.push(c);
        }
        i = i + 1;
    }
    assert(s@.skip(i as int).len() == 0);
    if cur.len() > 0 {
        let ghost old_r = r@;
        r.push(cur);
        assert(r@.map_values(|w: Vec<char>| w@) =~= old_r.map_values(|w: Vec<char>| w@) + seq![
            cur@]);
    } else {
        assert(r@.map_values(|w: Vec<char>| w@) =~= r@.map_values(|w: Vec<char>| w@) + Seq::<
            Seq<char>,
        >::empty());
    }
    r
}

pub fn vec_eq(a: &Vec<char>, b: &Vec<char>) -> (r: bool)
    ensures
        r == (a@ == b@),
{
    if a.len() != b.len() {
        return false;
    }
    let mut i: usize = 0;
    while i < a.len()
        invariant
            i <= a.len() == b.len(),
            a@.subrange(0, i as int) == b@.subrange(0, i as int),
        decreases a.len() - i,
    {
        if a[i] != b[i] {
            assert(a@[i as int] != b@[i as int]);
            return false;
        }
        i = i + 1;
        assert(a@.subrange(0, i as int) =~= a@.subrange(0, i - 1).push(a@[i - 1]));
        assert(b@.subrange(0, i as int) =~= b@.subrange(0, i - 1).push(b@[i - 1]));
    }
    assert(a@ =~= a@.subrange(0, i as int));
    assert(b@ =~= b@.subrange(0, i as int));
    true
}

/// `s` begins with `p`.
pub open spec fn has_prefix(s: Seq<char>, p: Seq<char>) -> bool {
    p.len() <= s.len() && s.subrange(0, p.len() as int) == p
}

/// `s` ends with `p`.
pub open spec fn has_suffix(s: Seq<char>, p: Seq<char>) -> bool {
    p.len() <= s.len() && s.subrange(s.len() - p.len(), s.len() as int) == p
}

/// `p` occurs in `s` at position `i`.
pub open spec fn occurs_at(s: Seq<char>, p: Seq<char>, i: int) -> bool {
    0 <= i && i + p.len() <= s.len() && s.subrange(i, i + p.len()) == p
}

/// `p` occurs somewhere in `s`.
pub open spec fn has_infix(s: Seq<char>, p: Seq<char>) -> bool {
    exists|i: int| occurs_at(s, p, i)
}

pub fn matches_at(s: &Vec<char>, p: &Vec<char>, i: usize) -> (r: bool)
    ensures
        r == occurs_at(s@, p@, i as int),
{
    if i > s.len() || p.len() > s.len() - i {
        return false;
    }
    let mut k: usize = 0;
    while k < p.len()
        invariant
            k <= p.len(),
            i + p.len() <= s.len(),
            s@.subrange(i as int, i + k) == p@.subrange(0, k as int),
        decreases p.len() - k,
    {
        if s[i + k] != p[k] {
            assert(s@.subrange(i as int, i + p.len())[k as int] != p@[k as int]);
            return false;
        }
        k = k + 1;
        assert(s@.subrange(i as int, i + k) =~= s@.subrange(i as int, i + k - 1).push(s@[i + k - 1]));
        assert(p@.subrange(0, k as int) =~= p@.subrange(0, k - 1).push(p@[k - 1]));
    }
    assert(p@.subrange(0, k as int) =~= p@);
    true
}

pub fn starts_with(s: &Vec<char>, p: &Vec<char>) -> (r: bool)
    ensures
        r == has_prefix(s@, p@),
{
    matches_at(s, p, 0)
}

pub fn ends_with(s: &Vec<char>, p: &Vec<char>) -> (r: bool)
    ensures
        r == has_suffix(s@, p@),
{
    if p.len() > s.len() {
        false
    } else {
        matches_at(s, p, s.len() - p.len())
    }
}

pub fn contains_seq(s: &Vec<char>, p: &Vec<char>) -> (r: bool)
    ensures
        r == has_infix(s@, p@),
{
    if p.len() > s.len() {
        assert forall|i: int| !occurs_at(s@, p@, i) by {}
        return false;
    }
    let last: usize = s.len() - p.len();
    let mut i: usize = 0;
    loop
        invariant
            p.len() <= s.len(),
            last == s.len() - p.len(),
            i <= last,
            forall|j: int| 0 <= j < i ==> !occurs_at(s@, p@, j),
        decreases last - i,
    {
        if matches_at(s, p, i) {
            return true;
        }
        if i == last {
            assert forall|j: int| !occurs_at(s@, p@, j) by {
                if 0 <= j < i {
                }
            }
            return false;
        }
        i = i + 1;
    }
}

} // verus!
