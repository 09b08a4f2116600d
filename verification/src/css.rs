//! Style sheets: CSS text split into its rules, after the CSS syntax's rule
//! list (comments, strings and nested blocks respected). A style rule whose
//! prelude is not a selector list is dropped, as an invalid style rule is.

use vstd::prelude::*;
use crate::document::HtmlDocument;
use crate::error::Error;
use crate::selector_parse::{parse_list, parse_selector_list};
use crate::text::{is_ascii_ws, ascii_ws, str_to_vec, vec_to_string};

verus! {

/// Position after a quoted string whose opening quote `q` came before `i`;
/// a backslash escapes the character after it.
pub open spec fn string_end(s: Seq<char>, i: int, q: char) -> int
    decreases s.len() - i,
{
    if !(0 <= i < s.len()) {
        s.len() as int
    } else if s[i] == q {
        i + 1
    } else if s[i] == '\\' && i + 1 < s.len() {
        string_end(s, i + 2, q)
    } else {
        string_end(s, i + 1, q)
    }
}

/// Position after the `*/` closing a comment opened before `i`.
pub open spec fn css_comment_end(s: Seq<char>, i: int) -> int
    decreases s.len() - i,
{
    if !(0 <= i < s.len()) {
        s.len() as int
    } else if s[i] == '*' && i + 1 < s.len() && s[i + 1] == '/' {
        i + 2
    } else {
        css_comment_end(s, i + 1)
    }
}

/// A comment opens at `i`.
pub open spec fn comment_at(s: Seq<char>, i: int) -> bool {
    0 <= i && i + 1 < s.len() && s[i] == '/' && s[i + 1] == '*'
}

/// A string opens at `i`.
pub open spec fn quote_at(s: Seq<char>, i: int) -> bool {
    0 <= i < s.len() && (s[i] == '"' || s[i] == '\'')
}

pub proof fn lemma_string_end(s: Seq<char>, i: int, q: char)
    requires
        0 <= i,
    ensures
        i <= string_end(s, i, q) <= s.len() || (i > s.len() && string_end(s, i, q) == s.len()),
        i < s.len() ==> i < string_end(s, i, q) <= s.len(),
    decreases s.len() - i,
{
    if 0 <= i < s.len() && s[i] != q {
        if s[i] == '\\' && i + 1 < s.len() {
            lemma_string_end(s, i + 2, q);
        } else {
            lemma_string_end(s, i + 1, q);
        }
    }
}

pub proof fn lemma_comment_end(s: Seq<char>, i: int)
    requires
        0 <= i,
    ensures
        i <= s.len() ==> i <= css_comment_end(s, i) <= s.len(),
        css_comment_end(s, i) <= s.len(),
    decreases s.len() - i,
{
    if 0 <= i < s.len() && !(s[i] == '*' && i + 1 < s.len() && s[i + 1] == '/') {
        lemma_comment_end(s, i + 1);
    }
}

/// Inside a block nested `depth` deep, the position of the `}` that closes
/// it, scanning from `i`; the end of the text when it is never closed.
pub open spec fn block_close(s: Seq<char>, i: int, depth: nat) -> int
    decreases s.len() - i,
{
    if !(0 <= i < s.len()) {
        s.len() as int
    } else if quote_at(s, i) {
        proof {
            lemma_string_end(s, i + 1, s[i]);
        }
        block_close(s, string_end(s, i + 1, s[i]), depth)
    } else if comment_at(s, i) {
        proof {
            lemma_comment_end(s, i + 2);
        }
        block_close(s, css_comment_end(s, i + 2), depth)
    } else if s[i] == '{' {
        block_close(s, i + 1, depth + 1)
    } else if s[i] == '}' {
        if depth <= 1 {
            i
        } else {
            block_close(s, i + 1, (depth - 1) as nat)
        }
    } else {
        block_close(s, i + 1, depth)
    }
}

/// From `i`, the position of the first `{` (or, for an at-rule, `;`)
/// outside strings and comments; the end of the text when there is none.
pub open spec fn prelude_end(s: Seq<char>, i: int, at_rule: bool) -> int
    decreases s.len() - i,
{
    if !(0 <= i < s.len()) {
        s.len() as int
    } else if s[i] == '{' || (at_rule && s[i] == ';') {
        i
    } else if quote_at(s, i) {
        proof {
            lemma_string_end(s, i + 1, s[i]);
        }
        prelude_end(s, string_end(s, i + 1, s[i]), at_rule)
    } else if comment_at(s, i) {
        proof {
            lemma_comment_end(s, i + 2);
        }
        prelude_end(s, css_comment_end(s, i + 2), at_rule)
    } else {
        prelude_end(s, i + 1, at_rule)
    }
}

/// `<!--` or `-->` opens at `i`.
pub open spec fn cdo_at(s: Seq<char>, i: int) -> bool {
    0 <= i && i + 3 < s.len() && s[i] == '<' && s[i + 1] == '!' && s[i + 2] == '-' && s[i + 3]
        == '-'
}

pub open spec fn cdc_at(s: Seq<char>, i: int) -> bool {
    0 <= i && i + 2 < s.len() && s[i] == '-' && s[i + 1] == '-' && s[i + 2] == '>'
}

/// From `i`, past the white space, comments and `<!--` / `-->` markers that
/// may stand between rules.
pub open spec fn rule_gap_end(s: Seq<char>, i: int) -> int
    decreases s.len() - i,
{
    if !(0 <= i < s.len()) {
        s.len() as int
    } else if is_ascii_ws(s[i]) {
        rule_gap_end(s, i + 1)
    } else if comment_at(s, i) {
        proof {
            lemma_comment_end(s, i + 2);
        }
        rule_gap_end(s, css_comment_end(s, i + 2))
    } else if cdo_at(s, i) {
        rule_gap_end(s, i + 4)
    } else if cdc_at(s, i) {
        rule_gap_end(s, i + 3)
    } else {
        i
    }
}

pub proof fn lemma_block_close(s: Seq<char>, i: int, depth: nat)
    requires
        0 <= i,
    ensures
        i <= s.len() ==> i <= block_close(s, i, depth) <= s.len(),
        block_close(s, i, depth) <= s.len(),
        block_close(s, i, depth) < s.len() ==> s[block_close(s, i, depth)] == '}',
    decreases s.len() - i,
{
    if 0 <= i < s.len() {
        if quote_at(s, i) {
            lemma_string_end(s, i + 1, s[i]);
            lemma_block_close(s, string_end(s, i + 1, s[i]), depth);
        } else if comment_at(s, i) {
            lemma_comment_end(s, i + 2);
            lemma_block_close(s, css_comment_end(s, i + 2), depth);
        } else if s[i] == '{' {
            lemma_block_close(s, i + 1, depth + 1);
        } else if s[i] == '}' {
            if depth > 1 {
                lemma_block_close(s, i + 1, (depth - 1) as nat);
            }
        } else {
            lemma_block_close(s, i + 1, depth);
        }
    }
}

pub proof fn lemma_prelude_end(s: Seq<char>, i: int, at_rule: bool)
    requires
        0 <= i,
    ensures
        i <= s.len() ==> i <= prelude_end(s, i, at_rule) <= s.len(),
        prelude_end(s, i, at_rule) <= s.len(),
        prelude_end(s, i, at_rule) < s.len() ==> (s[prelude_end(s, i, at_rule)] == '{' || (at_rule
            && s[prelude_end(s, i, at_rule)] == ';')),
    decreases s.len() - i,
{
    if 0 <= i < s.len() && !(s[i] == '{' || (at_rule && s[i] == ';')) {
        if quote_at(s, i) {
            lemma_string_end(s, i + 1, s[i]);
            lemma_prelude_end(s, string_end(s, i + 1, s[i]), at_rule);
        } else if comment_at(s, i) {
            lemma_comment_end(s, i + 2);
            lemma_prelude_end(s, css_comment_end(s, i + 2), at_rule);
        } else {
            lemma_prelude_end(s, i + 1, at_rule);
        }
    }
}

pub proof fn lemma_rule_gap_end(s: Seq<char>, i: int)
    requires
        0 <= i,
    ensures
        i <= s.len() ==> i <= rule_gap_end(s, i) <= s.len(),
        rule_gap_end(s, i) <= s.len(),
    decreases s.len() - i,
{
    if 0 <= i < s.len() {
        if is_ascii_ws(s[i]) {
            lemma_rule_gap_end(s, i + 1);
        } else if comment_at(s, i) {
            lemma_comment_end(s, i + 2);
            lemma_rule_gap_end(s, css_comment_end(s, i + 2));
        } else if cdo_at(s, i) {
            lemma_rule_gap_end(s, i + 4);
        } else if cdc_at(s, i) {
            lemma_rule_gap_end(s, i + 3);
        }
    }
}

/// `t` without leading ASCII white space.
pub open spec fn trim_start_ws(t: Seq<char>) -> Seq<char>
    decreases t.len(),
{
    if t.len() > 0 && is_ascii_ws(t[0]) {
        trim_start_ws(t.drop_first())
    } else {
        t
    }
}

/// `t` without trailing ASCII white space.
pub open spec fn trim_end_ws(t: Seq<char>) -> Seq<char>
    decreases t.len(),
{
    if t.len() > 0 && is_ascii_ws(t.last()) {
        trim_end_ws(t.drop_last())
    } else {
        t
    }
}

/// `t` without leading and trailing ASCII white space.
pub open spec fn trim_ws(t: Seq<char>) -> Seq<char> {
    trim_end_ws(trim_start_ws(t))
}

/// Mathematical form of a rule: its prelude (the selector list of a style
/// rule, or `@name ...` of an at-rule) and the text of its block, if any.
pub struct RuleV {
    pub prelude: Seq<char>,
    pub block: Option<Seq<char>>,
}

/// The rules of style sheet text `s` from position `i` on.
pub open spec fn rules_from(s: Seq<char>, i: int) -> Seq<RuleV>
    decreases s.len() - i,
{
    if 0 <= i < s.len() {
        proof {
            lemma_rule_gap_end(s, i);
        }
        let j = rule_gap_end(s, i);
        if j < s.len() {
            let at_rule = s[j] == '@';
            proof {
                lemma_prelude_end(s, j, at_rule);
            }
            let e = prelude_end(s, j, at_rule);
            let pre = trim_ws(s.subrange(j, e));
            if e >= s.len() {
                if at_rule {
                    seq![RuleV { prelude: pre, block: None }]
                } else {
                    Seq::empty()
                }
            } else if s[e] == ';' {
                seq![RuleV { prelude: pre, block: None }] + rules_from(s, e + 1)
            } else {
                proof {
                    lemma_block_close(s, e + 1, 1);
                }
                let b = block_close(s, e + 1, 1);
                let rule = RuleV { prelude: pre, block: Some(s.subrange(e + 1, b)) };
                (if at_rule || parse_list(pre) is Some {
                    seq![rule]
                } else {
                    Seq::empty()
                }) + if b < s.len() {
                    rules_from(s, b + 1)
                } else {
                    Seq::empty()
                }
            }
        } else {
            Seq::empty()
        }
    } else {
        Seq::empty()
    }
}

/// The rules of style sheet text `s`.
pub open spec fn css_rules(s: Seq<char>) -> Seq<RuleV> {
    rules_from(s, 0)
}

fn string_end_exec(s: &Vec<char>, i: usize, q: char) -> (r: usize)
    requires
        i <= s.len(),
    ensures
        r == string_end(s@, i as int, q),
        r <= s.len(),
{
    proof {
        lemma_string_end(s@, i as int, q);
    }
    let mut k = i;
    while k < s.len()
        invariant
            i <= k <= s.len(),
            string_end(s@, i as int, q) == string_end(s@, k as int, q),
        decreases s.len() - k,
    {
        if s[k] == q {
            return k + 1;
        }
        if s[k] == '\\' && k + 1 < s.len() {
            k = k + 2;
        } else {
            k = k + 1;
        }
    }
    s.len()
}

fn comment_end_exec(s: &Vec<char>, i: usize) -> (r: usize)
    requires
        i <= s.len(),
    ensures
        r == css_comment_end(s@, i as int),
        i <= r <= s.len(),
{
    proof {
        lemma_comment_end(s@, i as int);
    }
    let mut k = i;
    while k < s.len()
        invariant
            i <= k <= s.len(),
            css_comment_end(s@, i as int) == css_comment_end(s@, k as int),
        decreases s.len() - k,
    {
        if s[k] == '*' && k + 1 < s.len() && s[k + 1] == '/' {
            return k + 2;
        }
        k = k + 1;
    }
    s.len()
}

fn quote_at_exec(s: &Vec<char>, i: usize) -> (r: bool)
    ensures
        r == quote_at(s@, i as int),
{
    i < s.len() && (s[i] == '"' || s[i] == '\'')
}

fn comment_at_exec(s: &Vec<char>, i: usize) -> (r: bool)
    ensures
        r == comment_at(s@, i as int),
{
    i < s.len() && s.len() - i > 1 && s[i] == '/' && s[i + 1] == '*'
}

fn block_close_exec(s: &Vec<char>, i: usize) -> (r: usize)
    requires
        1 <= i <= s.len(),
    ensures
        r == block_close(s@, i as int, 1),
        i <= r <= s.len(),
{
    proof {
        lemma_block_close(s@, i as int, 1);
    }
    let mut k = i;
    let mut depth: usize = 1;
    while k < s.len()
        invariant
            1 <= i <= k <= s.len(),
            1 <= depth <= k,
            block_close(s@, i as int, 1) == block_close(s@, k as int, depth as nat),
        decreases s.len() - k,
    {
        if quote_at_exec(s, k) {
            proof {
                lemma_string_end(s@, k + 1, s@[k as int]);
            }
            k = string_end_exec(s, k + 1, s[k]);
        } else if comment_at_exec(s, k) {
            k = comment_end_exec(s, k + 2);
        } else if s[k] == '{' {
            depth = depth + 1;
            k = k + 1;
        } else if s[k] == '}' {
            if depth <= 1 {
                return k;
            }
            depth = depth - 1;
            k = k + 1;
        } else {
            k = k + 1;
        }
    }
    s.len()
}

fn prelude_end_exec(s: &Vec<char>, i: usize, at_rule: bool) -> (r: usize)
    requires
        i <= s.len(),
    ensures
        r == prelude_end(s@, i as int, at_rule),
        i <= r <= s.len(),
{
    proof {
        lemma_prelude_end(s@, i as int, at_rule);
    }
    let mut k = i;
    while k < s.len()
        invariant
            i <= k <= s.len(),
            prelude_end(s@, i as int, at_rule) == prelude_end(s@, k as int, at_rule),
        decreases s.len() - k,
    {
        if s[k] == '{' || (at_rule && s[k] == ';') {
            return k;
        }
        if quote_at_exec(s, k) {
            proof {
                lemma_string_end(s@, k + 1, s@[k as int]);
            }
            k = string_end_exec(s, k + 1, s[k]);
        } else if comment_at_exec(s, k) {
            k = comment_end_exec(s, k + 2);
        } else {
            k = k + 1;
        }
    }
    s.len()
}

fn rule_gap_end_exec(s: &Vec<char>, i: usize) -> (r: usize)
    requires
        i <= s.len(),
    ensures
        r == rule_gap_end(s@, i as int),
        i <= r <= s.len(),
{
    proof {
        lemma_rule_gap_end(s@, i as int);
    }
    let mut k = i;
    while k < s.len()
        invariant
            i <= k <= s.len(),
            rule_gap_end(s@, i as int) == rule_gap_end(s@, k as int),
        decreases s.len() - k,
    {
        if ascii_ws(s[k]) {
            k = k + 1;
        } else if comment_at_exec(s, k) {
            k = comment_end_exec(s, k + 2);
        } else if s.len() - k > 3 && s[k] == '<' && s[k + 1] == '!' && s[k + 2] == '-' && s[k + 3]
            == '-' {
            k = k + 4;
        } else if s.len() - k > 2 && s[k] == '-' && s[k + 1] == '-' && s[k + 2] == '>' {
            k = k + 3;
        } else {
            return k;
        }
    }
    s.len()
}

proof fn lemma_trim_start(t: Seq<char>, k: int)
    requires
        0 <= k <= t.len(),
        forall|j: int| 0 <= j < k ==> is_ascii_ws(#[trigger] t[j]),
    ensures
        trim_start_ws(t) == trim_start_ws(t.subrange(k, t.len() as int)),
    decreases k,
{
    if k > 0 {
        assert(t.subrange(1, t.len() as int) =~= t.drop_first());
        assert forall|j: int| 0 <= j < k - 1 implies is_ascii_ws(#[trigger] t.drop_first()[j]) by {
            assert(t.drop_first()[j] == t[j + 1]);
        }
        lemma_trim_start(t.drop_first(), k - 1);
        assert(t.drop_first().subrange(k - 1, t.drop_first().len() as int) =~= t.subrange(k, t.len() as int));
    } else {
        assert(t.subrange(0, t.len() as int) =~= t);
    }
}

proof fn lemma_trim_end(t: Seq<char>, k: int)
    requires
        0 <= k <= t.len(),
        forall|j: int| k <= j < t.len() ==> is_ascii_ws(#[trigger] t[j]),
    ensures
        trim_end_ws(t) == trim_end_ws(t.subrange(0, k)),
    decreases t.len() - k,
{
    if k < t.len() {
        assert(t.subrange(0, t.len() - 1) =~= t.drop_last());
        assert forall|j: int| k <= j < t.drop_last().len() implies is_ascii_ws(#[trigger] t.drop_last()[j]) by {
            assert(t.drop_last()[j] == t[j]);
        }
        lemma_trim_end(t.drop_last(), k);
        assert(t.drop_last().subrange(0, k) =~= t.subrange(0, k));
    } else {
        assert(t.subrange(0, k) =~= t);
    }
}

/// The characters `lo..hi` of `s` without leading and trailing white space.
fn trimmed_slice(s: &Vec<char>, lo: usize, hi: usize) -> (r: Vec<char>)
    requires
        lo <= hi <= s.len(),
    ensures
        r@ == trim_ws(s@.subrange(lo as int, hi as int)),
{
    let ghost t = s@.subrange(lo as int, hi as int);
    let mut a = lo;
    while a < hi && ascii_ws(s[a])
        invariant
            lo <= a <= hi <= s.len(),
            t == s@.subrange(lo as int, hi as int),
            forall|j: int| 0 <= j < a - lo ==> is_ascii_ws(#[trigger] t[j]),
        decreases hi - a,
    {
        assert(t[a - lo] == s@[a as int]);
        a = a + 1;
    }
    proof {
        lemma_trim_start(t, a - lo);
    }
    let ghost t2 = t.subrange(a - lo, t.len() as int);
    assert(t2 =~= s@.subrange(a as int, hi as int));
    if a < hi {
        assert(!is_ascii_ws(t2[0]));
        assert(trim_start_ws(t2) == t2);
    } else {
        assert(t2.len() == 0);
    }
    let mut b = hi;
    while b > a && ascii_ws(s[b - 1])
        invariant
            lo <= a <= b <= hi <= s.len(),
            t2 == s@.subrange(a as int, hi as int),
            forall|j: int| b - a <= j < t2.len() ==> is_ascii_ws(#[trigger] t2[j]),
        decreases b - a,
    {
        assert(t2[b - 1 - a] == s@[b - 1]);
        b = b - 1;
    }
    proof {
        lemma_trim_end(t2, b - a);
    }
    let ghost t3 = t2.subrange(0, b - a);
    if b > a {
        assert(!is_ascii_ws(t3.last()));
    }
    assert(trim_end_ws(t3) == t3);
    let mut r: Vec<char> = Vec::new();
    let mut k = a;
    while k < b
        invariant
            a <= k <= b <= s.len(),
            r@ == s@.subrange(a as int, k as int),
        decreases b - k,
    {
        r.push(s[k]);
        k = k + 1;
        assert(r@ =~= s@.subrange(a as int, k as int));
    }
    assert(r@ =~= t3);
    r
}

/// One rule of a style sheet.
pub struct CssRule {
    /// The selector list of a style rule, or `@name ...` of an at-rule,
    /// without surrounding white space.
    pub prelude: String,
    /// The text between the rule's braces; `None` for an at-rule ended by
    /// `;` or by the end of the text.
    pub block: Option<String>,
}

impl View for CssRule {
    type V = RuleV;

    open spec fn view(&self) -> RuleV {
        RuleV {
            prelude: self.prelude@,
            block: match self.block {
                Some(b) => Some(b@),
                None => None,
            },
        }
    }
}

pub open spec fn rules_view(v: Seq<CssRule>) -> Seq<RuleV> {
    v.map_values(|r: CssRule| r@)
}

/// A parsed CSS style sheet.
pub struct StyleSheet {
    rules: Vec<CssRule>,
}

impl View for StyleSheet {
    type V = Seq<RuleV>;

    closed spec fn view(&self) -> Seq<RuleV> {
        rules_view(self.rules@)
    }
}

fn push_rule(out: &mut Vec<CssRule>, prelude: &Vec<char>, block: Option<Vec<char>>)
    ensures
        rules_view(final(out)@) == rules_view(old(out)@).push(
            RuleV {
                prelude: prelude@,
                block: match block {
                    Some(b) => Some(b@),
                    None => None,
                },
            },
        ),
{
    let p = vec_to_string(prelude);
    let b = match block {
        Some(v) => Some(vec_to_string(&v)),
        None => None,
    };
    let ghost before = out@;
    out.push(CssRule { prelude: p, block: b });
    assert(rules_view(out@) =~= rules_view(before).push(out@.last()@));
}

impl StyleSheet {
    /// Parse a CSS string into a style sheet: its rules, in order. CSS is
    /// read with error recovery, so every text yields a style sheet.
    pub fn parse(doc: &HtmlDocument, css: &str) -> (r: Result<StyleSheet, Error>)
        ensures
            r matches Ok(sheet) && sheet@ == css_rules(css@),
    {
        let s = str_to_vec(css);
        let mut rules: Vec<CssRule> = Vec::new();
        let mut i: usize = 0;
        assert(rules_view(rules@) + rules_from(s@, 0) =~= css_rules(css@));
        while i < s.len()
            invariant
                i <= s.len(),
                s@ == css@,
                rules_view(rules@) + rules_from(s@, i as int) == css_rules(css@),
            decreases s.len() - i,
        {
            let ghost before = rules_view(rules@);
            let ghost rest = rules_from(s@, i as int);
            let j = rule_gap_end_exec(&s, i);
            if j >= s.len() {
                assert(rest =~= Seq::<RuleV>::empty());
                i = s.len();
                assert(rules_view(rules@) + rules_from(s@, i as int) =~= before + rest);
            } else {
                let at_rule = s[j] == '@';
                let e = prelude_end_exec(&s, j, at_rule);
                let pre = trimmed_slice(&s, j, e);
                let ghost rule0 = RuleV { prelude: pre@, block: None };
                if e >= s.len() {
                    if at_rule {
                        push_rule(&mut rules, &pre, None);
                        assert(rest == seq![rule0]);
                    } else {
                        assert(rest =~= Seq::<RuleV>::empty());
                    }
                    i = s.len();
                    assert(rules_view(rules@) + rules_from(s@, i as int) =~= before + rest);
                } else if s[e] == ';' {
                    push_rule(&mut rules, &pre, None);
                    assert(rest == seq![rule0] + rules_from(s@, e + 1));
                    i = e + 1;
                    assert(rules_view(rules@) + rules_from(s@, i as int) =~= before + rest);
                } else {
                    let b = block_close_exec(&s, e + 1);
                    let mut block: Vec<char> = Vec::new();
                    let mut k = e + 1;
                    while k < b
                        invariant
                            e + 1 <= k <= b <= s.len(),
                            block@ == s@.subrange(e + 1, k as int),
                        decreases b - k,
                    {
                        block.push(s[k]);
                        k = k + 1;
                        assert(block@ =~= s@.subrange(e + 1, k as int));
                    }
                    let ghost rule = RuleV { prelude: pre@, block: Some(block@) };
                    let keep = at_rule || parse_selector_list(&pre).is_some();
                    let ghost head = if keep {
                        seq![rule]
                    } else {
                        Seq::<RuleV>::empty()
                    };
                    assert(keep == (at_rule || parse_list(pre@) is Some));
                    if keep {
                        push_rule(&mut rules, &pre, Some(block));
                    }
                    assert(rules_view(rules@) =~= before + head);
                    if b < s.len() {
                        assert(rest == head + rules_from(s@, b + 1));
                        i = b + 1;
                    } else {
                        assert(rest == head + Seq::<RuleV>::empty());
                        i = s.len();
                        assert(rules_from(s@, i as int) =~= Seq::<RuleV>::empty());
                    }
                    assert(rules_view(rules@) + rules_from(s@, i as int) =~= before + rest);
                }
            }
        }
        assert(rules_from(s@, i as int) =~= Seq::<RuleV>::empty());
        assert(rules_view(rules@) =~= css_rules(css@));
        Ok(StyleSheet { rules })
    }

    /// The rules of the style sheet, in order.
    pub fn rules(&self) -> (r: &Vec<CssRule>)
        ensures
            rules_view(r@) == self@,
    {
        &self.rules
    }
}

} // verus!
