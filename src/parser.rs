//! The template parser: the text of a command template to its syntax tree.
//!
//! The grammar is stated as spec functions over the template's characters;
//! each parsing function is proved to compute exactly what they state.
use vstd::prelude::*;
use crate::ast::Quantifier;
use crate::regex_set::strs;
use crate::text::{
    chars_between, chars_of, decimal, decimal_text, multispace_end, skip_multispace, string_of,
};
use vstd::string::StringExecFns;

verus! {

/// A filter as written: a name and its string arguments.
#[derive(Clone, Eq, PartialEq, Debug)]
pub struct Filter {
    pub name: String,
    pub args: Vec<String>,
}

/// A comma-separated list of filters: one alternative of a capture.
#[derive(Clone, Eq, PartialEq, Debug)]
pub struct Pattern(pub Vec<Filter>);

/// A capture as written.
#[derive(Clone, Eq, PartialEq, Debug)]
pub struct Capture {
    pub name: String,
    pub quantifier: Quantifier,
    pub patterns: Vec<Pattern>,
}

/// A segment as written.
#[derive(Clone, Eq, PartialEq, Debug)]
pub enum Segment {
    Text(String),
    Capture(Capture),
    Group(Vec<Capture>),
    PriorityGroup(Vec<Capture>),
}

pub struct FilterView {
    pub name: Seq<char>,
    pub args: Seq<Seq<char>>,
}

pub struct CaptureView {
    pub name: Seq<char>,
    pub quantifier: Quantifier,
    pub patterns: Seq<Seq<FilterView>>,
}

pub enum SegmentView {
    Text(Seq<char>),
    Capture(CaptureView),
    Group(Seq<CaptureView>),
    PriorityGroup(Seq<CaptureView>),
}

impl View for Filter {
    type V = FilterView;

    open spec fn view(&self) -> FilterView {
        FilterView { name: self.name@, args: strs(self.args@) }
    }
}

pub open spec fn filters_view(v: Seq<Filter>) -> Seq<FilterView> {
    v.map_values(|f: Filter| f@)
}

impl View for Pattern {
    type V = Seq<FilterView>;

    open spec fn view(&self) -> Seq<FilterView> {
        filters_view(self.0@)
    }
}

pub open spec fn patterns_view(v: Seq<Pattern>) -> Seq<Seq<FilterView>> {
    v.map_values(|p: Pattern| p@)
}

impl View for Capture {
    type V = CaptureView;

    open spec fn view(&self) -> CaptureView {
        CaptureView { name: self.name@, quantifier: self.quantifier, patterns: patterns_view(self.patterns@) }
    }
}

pub open spec fn captures_view(v: Seq<Capture>) -> Seq<CaptureView> {
    v.map_values(|c: Capture| c@)
}

impl View for Segment {
    type V = SegmentView;

    open spec fn view(&self) -> SegmentView {
        match self {
            Segment::Text(t) => SegmentView::Text(t@),
            Segment::Capture(c) => SegmentView::Capture(c@),
            Segment::Group(cs) => SegmentView::Group(captures_view(cs@)),
            Segment::PriorityGroup(cs) => SegmentView::PriorityGroup(captures_view(cs@)),
        }
    }
}

pub open spec fn segments_view(v: Seq<Segment>) -> Seq<SegmentView> {
    v.map_values(|s: Segment| s@)
}

/// The outcome of a parser that may commit: a value and the position after
/// it; no match, so that an alternative may be tried; or a failure at a
/// position where the closing delimiter `c` was expected.
pub enum Step<T> {
    Done(T, nat),
    Miss,
    Fail(nat, char),
}

// ---- strings: '...', `...` or "..." with backslash escapes

pub open spec fn is_quote(c: char) -> bool {
    c == '"' || c == '`' || c == '\''
}

pub open spec fn string_escape(c: char) -> Option<char> {
    if c == '\\' {
        Some('\\')
    } else if c == 'n' {
        Some('\n')
    } else if c == 'r' {
        Some('\r')
    } else if c == 't' {
        Some('\t')
    } else if c == '\'' || c == '`' || c == '"' {
        Some(c)
    } else {
        None
    }
}

pub open spec fn string_body(s: Seq<char>, i: nat, q: char, acc: Seq<char>) -> Option<(Seq<char>, nat)>
    decreases s.len() - i,
{
    if i >= s.len() {
        None
    } else if s[i as int] == q {
        Some((acc, i + 1))
    } else if s[i as int] == '\\' {
        if i + 1 < s.len() && string_escape(s[(i + 1) as int]) is Some {
            string_body(s, i + 2, q, acc.push(string_escape(s[(i + 1) as int])->0))
        } else {
            None
        }
    } else {
        string_body(s, i + 1, q, acc.push(s[i as int]))
    }
}

/// A quoted string at `p`: its value and the position after the closing quote.
pub open spec fn string_at(s: Seq<char>, p: nat) -> Option<(Seq<char>, nat)> {
    if p < s.len() && is_quote(s[p as int]) {
        string_body(s, p + 1, s[p as int], Seq::empty())
    } else {
        None
    }
}

pub proof fn lemma_string_body(s: Seq<char>, i: nat, q: char, acc: Seq<char>)
    ensures
        string_body(s, i, q, acc) matches Some((v, e)) ==> i < e <= s.len(),
    decreases s.len() - i,
{
    if i < s.len() && s[i as int] != q {
        if s[i as int] == '\\' {
            if i + 1 < s.len() && string_escape(s[(i + 1) as int]) is Some {
                lemma_string_body(s, i + 2, q, acc.push(string_escape(s[(i + 1) as int])->0));
            }
        } else {
            lemma_string_body(s, i + 1, q, acc.push(s[i as int]));
        }
    }
}

pub proof fn lemma_string_at(s: Seq<char>, p: nat)
    ensures
        string_at(s, p) matches Some((v, e)) ==> p < e <= s.len(),
{
    if p < s.len() && is_quote(s[p as int]) {
        lemma_string_body(s, p + 1, s[p as int], Seq::empty());
    }
}

// ---- regular expressions: /.../ where \/ stands for /

pub open spec fn regex_body(s: Seq<char>, i: nat, acc: Seq<char>) -> Option<(Seq<char>, nat)>
    decreases s.len() - i,
{
    if i >= s.len() {
        None
    } else if s[i as int] == '/' {
        if acc.len() > 0 {
            Some((acc, i + 1))
        } else {
            None
        }
    } else if s[i as int] == '\\' {
        if i + 1 < s.len() {
            if s[(i + 1) as int] == '/' {
                regex_body(s, i + 2, acc.push('/'))
            } else {
                regex_body(s, i + 2, acc.push('\\').push(s[(i + 1) as int]))
            }
        } else {
            None
        }
    } else {
        regex_body(s, i + 1, acc.push(s[i as int]))
    }
}

/// A regex literal at `p`: its source and the position after the closing slash.
pub open spec fn regex_at(s: Seq<char>, p: nat) -> Option<(Seq<char>, nat)> {
    if p < s.len() && s[p as int] == '/' {
        regex_body(s, p + 1, Seq::empty())
    } else {
        None
    }
}

pub proof fn lemma_regex_body(s: Seq<char>, i: nat, acc: Seq<char>)
    ensures
        regex_body(s, i, acc) matches Some((v, e)) ==> i < e <= s.len(),
    decreases s.len() - i,
{
    if i < s.len() && s[i as int] != '/' {
        if s[i as int] == '\\' {
            if i + 1 < s.len() {
                if s[(i + 1) as int] == '/' {
                    lemma_regex_body(s, i + 2, acc.push('/'));
                } else {
                    lemma_regex_body(s, i + 2, acc.push('\\').push(s[(i + 1) as int]));
                }
            }
        } else {
            lemma_regex_body(s, i + 1, acc.push(s[i as int]));
        }
    }
}

// ---- filters: name(args), 'string' for eq, /regex/ for regex

pub open spec fn is_ascii_alpha(c: char) -> bool {
    ('a' <= c && c <= 'z') || ('A' <= c && c <= 'Z')
}

pub open spec fn is_ascii_alnum(c: char) -> bool {
    is_ascii_alpha(c) || ('0' <= c && c <= '9')
}

/// The end of a run of ASCII letters, digits and `-` from `i`.
pub open spec fn keyword_end(s: Seq<char>, i: nat) -> nat
    decreases s.len() - i,
{
    if i < s.len() && (is_ascii_alnum(s[i as int]) || s[i as int] == '-') {
        keyword_end(s, i + 1)
    } else {
        i
    }
}

/// More comma-separated strings after the one that ended at `i`.
pub open spec fn args_more(s: Seq<char>, i: nat, acc: Seq<Seq<char>>) -> (Seq<Seq<char>>, nat)
    decreases s.len() - i,
{
    let j = multispace_end(s, i);
    if j < s.len() && s[j as int] == ',' {
        let k = multispace_end(s, j + 1);
        match string_at(s, k) {
            Some((v, e)) => {
                proof {
                    crate::text::lemma_multispace_end_bounds(s, i);
                    crate::text::lemma_multispace_end_bounds(s, j + 1);
                    lemma_string_at(s, k);
                }
                args_more(s, e, acc.push(v))
            },
            None => (acc, i),
        }
    } else {
        (acc, i)
    }
}

/// A possibly empty list of comma-separated strings with an optional
/// trailing comma.
pub open spec fn args_at(s: Seq<char>, p: nat) -> (Seq<Seq<char>>, nat) {
    let (xs, e) = match string_at(s, p) {
        None => (Seq::empty(), p),
        Some((v, e)) => args_more(s, e, seq![v]),
    };
    if e < s.len() && s[e as int] == ',' {
        (xs, e + 1)
    } else {
        (xs, e)
    }
}

pub open spec fn eq_name() -> Seq<char> {
    seq!['e', 'q']
}

pub open spec fn regex_name() -> Seq<char> {
    seq!['r', 'e', 'g', 'e', 'x']
}

/// A filter at `p`.
pub open spec fn filter_at(s: Seq<char>, p: nat) -> Option<(FilterView, nat)> {
    if p < s.len() && is_ascii_alpha(s[p as int]) {
        let e = keyword_end(s, p + 1);
        if e < s.len() && s[e as int] == '(' {
            let (args, b) = args_at(s, multispace_end(s, e + 1));
            let c = multispace_end(s, b);
            if c < s.len() && s[c as int] == ')' {
                Some((FilterView { name: s.subrange(p as int, e as int), args }, c + 1))
            } else {
                None
            }
        } else {
            None
        }
    } else {
        match string_at(s, p) {
            Some((v, e)) => Some((FilterView { name: eq_name(), args: seq![v] }, e)),
            None => match regex_at(s, p) {
                Some((v, e)) => Some((FilterView { name: regex_name(), args: seq![v] }, e)),
                None => None,
            },
        }
    }
}

pub proof fn lemma_keyword_end(s: Seq<char>, i: nat)
    requires
        i <= s.len(),
    ensures
        i <= keyword_end(s, i) <= s.len(),
    decreases s.len() - i,
{
    if i < s.len() && (is_ascii_alnum(s[i as int]) || s[i as int] == '-') {
        lemma_keyword_end(s, i + 1);
    }
}

pub proof fn lemma_args_more(s: Seq<char>, i: nat, acc: Seq<Seq<char>>)
    requires
        i <= s.len(),
    ensures
        i <= args_more(s, i, acc).1 <= s.len(),
    decreases s.len() - i,
{
    let j = multispace_end(s, i);
    crate::text::lemma_multispace_end_bounds(s, i);
    if j < s.len() && s[j as int] == ',' {
        let k = multispace_end(s, j + 1);
        crate::text::lemma_multispace_end_bounds(s, j + 1);
        lemma_string_at(s, k);
        if let Some((v, e)) = string_at(s, k) {
            lemma_args_more(s, e, acc.push(v));
        }
    }
}

pub proof fn lemma_args_at(s: Seq<char>, p: nat)
    requires
        p <= s.len(),
    ensures
        p <= args_at(s, p).1 <= s.len(),
{
    lemma_string_at(s, p);
    if let Some((v, e)) = string_at(s, p) {
        lemma_args_more(s, e, seq![v]);
    }
}

pub proof fn lemma_filter_at(s: Seq<char>, p: nat)
    ensures
        filter_at(s, p) matches Some((f, e)) ==> p < e <= s.len(),
{
    lemma_string_at(s, p);
    if p < s.len() && is_ascii_alpha(s[p as int]) {
        let e = keyword_end(s, p + 1);
        lemma_keyword_end(s, p + 1);
        if e < s.len() && s[e as int] == '(' {
            crate::text::lemma_multispace_end_bounds(s, e + 1);
            let a = multispace_end(s, e + 1);
            lemma_args_at(s, a);
            crate::text::lemma_multispace_end_bounds(s, args_at(s, a).1);
        }
    }
    if p < s.len() && s[p as int] == '/' {
        lemma_regex_body(s, p + 1, Seq::empty());
    }
}

/// More comma-separated filters after the one that ended at `i`.
pub open spec fn filters_more(s: Seq<char>, i: nat, acc: Seq<FilterView>) -> (Seq<FilterView>, nat)
    decreases s.len() - i,
{
    let j = multispace_end(s, i);
    if j < s.len() && s[j as int] == ',' {
        let k = multispace_end(s, j + 1);
        match filter_at(s, k) {
            Some((f, e)) => {
                proof {
                    crate::text::lemma_multispace_end_bounds(s, i);
                    crate::text::lemma_multispace_end_bounds(s, j + 1);
                    lemma_filter_at(s, k);
                }
                filters_more(s, e, acc.push(f))
            },
            None => (acc, i),
        }
    } else {
        (acc, i)
    }
}

/// A non-empty list of comma-separated filters with an optional trailing comma.
pub open spec fn filters_at(s: Seq<char>, p: nat) -> Option<(Seq<FilterView>, nat)> {
    match filter_at(s, p) {
        None => None,
        Some((f, e)) => {
            let (xs, e2) = filters_more(s, e, seq![f]);
            if e2 < s.len() && s[e2 as int] == ',' {
                Some((xs, e2 + 1))
            } else {
                Some((xs, e2))
            }
        },
    }
}

pub proof fn lemma_filters_more(s: Seq<char>, i: nat, acc: Seq<FilterView>)
    requires
        i <= s.len(),
    ensures
        i <= filters_more(s, i, acc).1 <= s.len(),
    decreases s.len() - i,
{
    let j = multispace_end(s, i);
    crate::text::lemma_multispace_end_bounds(s, i);
    if j < s.len() && s[j as int] == ',' {
        let k = multispace_end(s, j + 1);
        crate::text::lemma_multispace_end_bounds(s, j + 1);
        lemma_filter_at(s, k);
        if let Some((f, e)) = filter_at(s, k) {
            lemma_filters_more(s, e, acc.push(f));
        }
    }
}

pub proof fn lemma_filters_at(s: Seq<char>, p: nat)
    ensures
        filters_at(s, p) matches Some((fs, e)) ==> p < e <= s.len(),
{
    lemma_filter_at(s, p);
    if let Some((f, e)) = filter_at(s, p) {
        lemma_filters_more(s, e, seq![f]);
    }
}

/// More `;`-separated patterns after the one that ended at `i`.
pub open spec fn patterns_more(s: Seq<char>, i: nat, acc: Seq<Seq<FilterView>>) -> (Seq<Seq<FilterView>>, nat)
    decreases s.len() - i,
{
    let j = multispace_end(s, i);
    if j < s.len() && s[j as int] == ';' {
        let k = multispace_end(s, j + 1);
        match filters_at(s, k) {
            Some((fs, e)) => {
                proof {
                    crate::text::lemma_multispace_end_bounds(s, i);
                    crate::text::lemma_multispace_end_bounds(s, j + 1);
                    lemma_filters_at(s, k);
                }
                patterns_more(s, e, acc.push(fs))
            },
            None => (acc, i),
        }
    } else {
        (acc, i)
    }
}

pub proof fn lemma_patterns_more(s: Seq<char>, i: nat, acc: Seq<Seq<FilterView>>)
    requires
        i <= s.len(),
    ensures
        i <= patterns_more(s, i, acc).1 <= s.len(),
    decreases s.len() - i,
{
    let j = multispace_end(s, i);
    crate::text::lemma_multispace_end_bounds(s, i);
    if j < s.len() && s[j as int] == ';' {
        let k = multispace_end(s, j + 1);
        crate::text::lemma_multispace_end_bounds(s, j + 1);
        lemma_filters_at(s, k);
        if let Some((fs, e)) = filters_at(s, k) {
            lemma_patterns_more(s, e, acc.push(fs));
        }
    }
}

pub proof fn lemma_patterns_at(s: Seq<char>, p: nat)
    requires
        p <= s.len(),
    ensures
        p <= patterns_at(s, p).1 <= s.len(),
{
    lemma_filters_at(s, p);
    if let Some((fs, e)) = filters_at(s, p) {
        lemma_patterns_more(s, e, seq![fs]);
    }
}

/// A possibly empty list of `;`-separated patterns with an optional trailing `;`.
pub open spec fn patterns_at(s: Seq<char>, p: nat) -> (Seq<Seq<FilterView>>, nat) {
    let (xs, e) = match filters_at(s, p) {
        None => (Seq::empty(), p),
        Some((fs, e)) => patterns_more(s, e, seq![fs]),
    };
    if e < s.len() && s[e as int] == ';' {
        (xs, e + 1)
    } else {
        (xs, e)
    }
}

// ---- captures: <name quantifier: patterns>

pub open spec fn is_name_char(c: char) -> bool {
    is_ascii_alnum(c) || c == '-' || c == '_'
}

pub open spec fn name_end(s: Seq<char>, i: nat) -> nat
    decreases s.len() - i,
{
    if i < s.len() && is_name_char(s[i as int]) {
        name_end(s, i + 1)
    } else {
        i
    }
}

pub open spec fn quantifier_of(c: char) -> Option<Quantifier> {
    if c == '?' {
        Some(Quantifier::MaybeOnce)
    } else if c == '*' {
        Some(Quantifier::Many0)
    } else if c == '+' {
        Some(Quantifier::Many1)
    } else {
        None
    }
}

/// A (possibly empty) name, the spaces after it, and a quantifier if one follows.
pub open spec fn name_quantifier_at(s: Seq<char>, p: nat) -> (Seq<char>, Quantifier, nat) {
    let e = name_end(s, p);
    let m = multispace_end(s, e);
    if m < s.len() && quantifier_of(s[m as int]) is Some {
        (s.subrange(p as int, e as int), quantifier_of(s[m as int])->0, m + 1)
    } else {
        (s.subrange(p as int, e as int), Quantifier::Once, m)
    }
}

/// A capture at `p`. Past the `<` the parser is committed: a missing `>`
/// is a failure.
pub open spec fn capture_at(s: Seq<char>, p: nat) -> Step<CaptureView> {
    if !(p < s.len() && s[p as int] == '<') {
        Step::Miss
    } else {
        let (name, quantifier, e1) = name_quantifier_at(s, multispace_end(s, p + 1));
        let c = multispace_end(s, e1);
        let (patterns, e2) = if c < s.len() && s[c as int] == ':' {
            patterns_at(s, multispace_end(s, c + 1))
        } else {
            (Seq::empty(), e1)
        };
        let f = multispace_end(s, e2);
        if f < s.len() && s[f as int] == '>' {
            Step::Done(CaptureView { name, quantifier, patterns }, f + 1)
        } else {
            Step::Fail(f, '>')
        }
    }
}

pub proof fn lemma_name_end(s: Seq<char>, i: nat)
    requires
        i <= s.len(),
    ensures
        i <= name_end(s, i) <= s.len(),
    decreases s.len() - i,
{
    if i < s.len() && is_name_char(s[i as int]) {
        lemma_name_end(s, i + 1);
    }
}

pub proof fn lemma_name_quantifier_at(s: Seq<char>, p: nat)
    requires
        p <= s.len(),
    ensures
        p <= name_quantifier_at(s, p).2 <= s.len(),
        p <= name_end(s, p) <= s.len(),
{
    lemma_name_end(s, p);
    crate::text::lemma_multispace_end_bounds(s, name_end(s, p));
}

pub proof fn lemma_capture_at(s: Seq<char>, p: nat)
    ensures
        capture_at(s, p) matches Step::Done(c, e) ==> p < e <= s.len(),
        capture_at(s, p) matches Step::Fail(x, d) ==> p < x <= s.len(),
{
    if p < s.len() && s[p as int] == '<' {
        let a = multispace_end(s, p + 1);
        crate::text::lemma_multispace_end_bounds(s, p + 1);
        lemma_name_quantifier_at(s, a);
        let e1 = name_quantifier_at(s, a).2;
        let c = multispace_end(s, e1);
        crate::text::lemma_multispace_end_bounds(s, e1);
        if c < s.len() && s[c as int] == ':' {
            crate::text::lemma_multispace_end_bounds(s, c + 1);
            lemma_patterns_at(s, multispace_end(s, c + 1));
        }
        let e2 = if c < s.len() && s[c as int] == ':' {
            patterns_at(s, multispace_end(s, c + 1)).1
        } else {
            e1
        };
        crate::text::lemma_multispace_end_bounds(s, e2);
    }
}

/// Captures, each with the spaces around it, from `i` on.
pub open spec fn members_from(s: Seq<char>, i: nat, acc: Seq<CaptureView>) -> Step<Seq<CaptureView>>
    decreases s.len() - i,
{
    let j = multispace_end(s, i);
    match capture_at(s, j) {
        Step::Miss => Step::Done(acc, i),
        Step::Fail(x, d) => Step::Fail(x, d),
        Step::Done(c, k) => {
            proof {
                crate::text::lemma_multispace_end_bounds(s, i);
                lemma_capture_at(s, j);
                crate::text::lemma_multispace_end_bounds(s, k);
            }
            if i <= s.len() {
                members_from(s, multispace_end(s, k), acc.push(c))
            } else {
                Step::Done(acc, i)
            }
        },
    }
}

/// A group opened by `open` and closed by `close` at `p`.
pub open spec fn group_at(s: Seq<char>, p: nat, open: char, close: char) -> Step<Seq<CaptureView>> {
    if !(p < s.len() && s[p as int] == open) {
        Step::Miss
    } else {
        match members_from(s, p + 1, Seq::empty()) {
            Step::Done(cs, i) => if i < s.len() && s[i as int] == close {
                Step::Done(cs, i + 1)
            } else {
                Step::Fail(i, close)
            },
            Step::Fail(x, d) => Step::Fail(x, d),
            Step::Miss => Step::Miss,
        }
    }
}

pub proof fn lemma_members_from(s: Seq<char>, i: nat, acc: Seq<CaptureView>)
    requires
        i <= s.len(),
    ensures
        members_from(s, i, acc) matches Step::Done(cs, e) ==> i <= e <= s.len(),
        !(members_from(s, i, acc) is Miss),
    decreases s.len() - i,
{
    let j = multispace_end(s, i);
    crate::text::lemma_multispace_end_bounds(s, i);
    lemma_capture_at(s, j);
    if let Step::Done(c, k) = capture_at(s, j) {
        crate::text::lemma_multispace_end_bounds(s, k);
        lemma_members_from(s, multispace_end(s, k), acc.push(c));
    }
}

pub proof fn lemma_group_at(s: Seq<char>, p: nat, open: char, close: char)
    ensures
        group_at(s, p, open, close) matches Step::Done(c, e) ==> p < e <= s.len(),
        p < s.len() && s[p as int] == open ==> !(group_at(s, p, open, close) is Miss),
{
    if p < s.len() && s[p as int] == open {
        lemma_members_from(s, p + 1, Seq::empty());
    }
}

// ---- literal text

pub open spec fn is_literal_stop(c: char) -> bool {
    c == ' ' || c == '\t' || c == '\n' || c == '\r' || c == '\\'
}

pub open spec fn is_space_tab(c: char) -> bool {
    c == ' ' || c == '\t'
}

pub open spec fn space_tab_end(s: Seq<char>, i: nat) -> nat
    decreases s.len() - i,
{
    if i < s.len() && is_space_tab(s[i as int]) {
        space_tab_end(s, i + 1)
    } else {
        i
    }
}

pub proof fn lemma_space_tab_end(s: Seq<char>, i: nat)
    requires
        i <= s.len(),
    ensures
        i <= space_tab_end(s, i) <= s.len(),
    decreases s.len() - i,
{
    if i < s.len() && is_space_tab(s[i as int]) {
        lemma_space_tab_end(s, i + 1);
    }
}

pub open spec fn literal_escape(c: char) -> Option<char> {
    if c == '\\' {
        Some('\\')
    } else if c == 'n' {
        Some('\n')
    } else if c == '<' {
        Some('<')
    } else if c == 'r' {
        Some('\r')
    } else if c == 't' {
        Some('\t')
    } else {
        None
    }
}

/// Literal text from `i`: plain characters, a backslash followed by spaces
/// or tabs (kept), or a backslash escape.
pub open spec fn literal_body(s: Seq<char>, i: nat, acc: Seq<char>) -> (Seq<char>, nat)
    decreases s.len() - i,
{
    if i >= s.len() {
        (acc, i)
    } else if !is_literal_stop(s[i as int]) {
        literal_body(s, i + 1, acc.push(s[i as int]))
    } else if s[i as int] == '\\' && i + 1 < s.len() && is_space_tab(s[(i + 1) as int]) {
        let e = space_tab_end(s, i + 1);
        proof {
            lemma_space_tab_end(s, i + 1);
        }
        literal_body(s, e, acc + s.subrange((i + 1) as int, e as int))
    } else if s[i as int] == '\\' && i + 1 < s.len() && literal_escape(s[(i + 1) as int]) is Some {
        literal_body(s, i + 2, acc.push(literal_escape(s[(i + 1) as int])->0))
    } else {
        (acc, i)
    }
}

/// Non-empty literal text at `p`.
pub open spec fn literal_at(s: Seq<char>, p: nat) -> Option<(Seq<char>, nat)> {
    let (t, e) = literal_body(s, p, Seq::empty());
    if e > p {
        Some((t, e))
    } else {
        None
    }
}

pub proof fn lemma_literal_body(s: Seq<char>, i: nat, acc: Seq<char>)
    requires
        i <= s.len(),
    ensures
        i <= literal_body(s, i, acc).1 <= s.len(),
    decreases s.len() - i,
{
    if i < s.len() {
        if !is_literal_stop(s[i as int]) {
            lemma_literal_body(s, i + 1, acc.push(s[i as int]));
        } else if s[i as int] == '\\' && i + 1 < s.len() && is_space_tab(s[(i + 1) as int]) {
            let e = space_tab_end(s, i + 1);
            lemma_space_tab_end(s, i + 1);
            lemma_literal_body(s, e, acc + s.subrange((i + 1) as int, e as int));
        } else if s[i as int] == '\\' && i + 1 < s.len() && literal_escape(s[(i + 1) as int]) is Some {
            lemma_literal_body(s, i + 2, acc.push(literal_escape(s[(i + 1) as int])->0));
        }
    }
}

// ---- segments and commands

/// A segment at `p`: a priority group, a group, a capture or literal text.
pub open spec fn segment_at(s: Seq<char>, p: nat) -> Step<SegmentView> {
    if p < s.len() && s[p as int] == '[' {
        match group_at(s, p, '[', ']') {
            Step::Done(cs, e) => Step::Done(SegmentView::PriorityGroup(cs), e),
            Step::Fail(x, d) => Step::Fail(x, d),
            Step::Miss => Step::Miss,
        }
    } else if p < s.len() && s[p as int] == '{' {
        match group_at(s, p, '{', '}') {
            Step::Done(cs, e) => Step::Done(SegmentView::Group(cs), e),
            Step::Fail(x, d) => Step::Fail(x, d),
            Step::Miss => Step::Miss,
        }
    } else if p < s.len() && s[p as int] == '<' {
        match capture_at(s, p) {
            Step::Done(c, e) => Step::Done(SegmentView::Capture(c), e),
            Step::Fail(x, d) => Step::Fail(x, d),
            Step::Miss => Step::Miss,
        }
    } else {
        match literal_at(s, p) {
            Some((t, e)) => Step::Done(SegmentView::Text(t), e),
            None => Step::Miss,
        }
    }
}

pub proof fn lemma_segment_at(s: Seq<char>, p: nat)
    requires
        p <= s.len(),
    ensures
        segment_at(s, p) matches Step::Done(c, e) ==> p < e <= s.len(),
{
    lemma_group_at(s, p, '[', ']');
    lemma_group_at(s, p, '{', '}');
    lemma_capture_at(s, p);
    lemma_literal_body(s, p, Seq::empty());
}

/// Segments, each with the spaces around it, from `i` on, until none can be
/// read; a failure inside one is the command's.
pub open spec fn command_from(s: Seq<char>, i: nat, acc: Seq<SegmentView>) -> Result<Seq<SegmentView>, (nat, char)>
    decreases s.len() - i,
{
    let j = multispace_end(s, i);
    match segment_at(s, j) {
        Step::Miss => Ok(acc),
        Step::Fail(x, d) => Err((x, d)),
        Step::Done(seg, k) => {
            proof {
                crate::text::lemma_multispace_end_bounds(s, i);
                lemma_segment_at(s, j);
                crate::text::lemma_multispace_end_bounds(s, k);
            }
            if i <= s.len() {
                command_from(s, multispace_end(s, k), acc.push(seg))
            } else {
                Ok(acc)
            }
        },
    }
}

/// A command template: its segments, or where it fails and which closing
/// delimiter was missing there.
pub open spec fn command_of(s: Seq<char>) -> Result<Seq<SegmentView>, (nat, char)> {
    command_from(s, 0, Seq::empty())
}

// ---- where a failure is

/// How many line feeds come before position `n`.
pub open spec fn newlines_before(s: Seq<char>, n: nat) -> nat
    decreases n,
{
    if n == 0 {
        0
    } else if s[n - 1] == '\n' {
        newlines_before(s, (n - 1) as nat) + 1
    } else {
        newlines_before(s, (n - 1) as nat)
    }
}

/// Where the line holding position `n` starts.
pub open spec fn line_start(s: Seq<char>, n: nat) -> nat
    decreases n,
{
    if n == 0 {
        0
    } else if s[n - 1] == '\n' {
        n
    } else {
        line_start(s, (n - 1) as nat)
    }
}

/// Where the line holding position `n` ends.
pub open spec fn line_end(s: Seq<char>, n: nat) -> nat
    decreases s.len() - n,
{
    if n >= s.len() || s[n as int] == '\n' {
        n
    } else {
        line_end(s, n + 1)
    }
}

// ---- the executable parser

fn string_escape_of(c: char) -> (r: Option<char>)
    ensures
        r == string_escape(c),
{
    if c == '\\' {
        Some('\\')
    } else if c == 'n' {
        Some('\n')
    } else if c == 'r' {
        Some('\r')
    } else if c == 't' {
        Some('\t')
    } else if c == '\'' || c == '`' || c == '"' {
        Some(c)
    } else {
        None
    }
}

fn read_string(s: &Vec<char>, p: usize) -> (r: Option<(String, usize)>)
    ensures
        match r {
            Some((v, e)) => string_at(s@, p as nat) == Some((v@, e as nat)),
            None => string_at(s@, p as nat) is None,
        },
{
    if !(p < s.len() && (s[p] == '"' || s[p] == '`' || s[p] == '\'')) {
        return None;
    }
    let q = s[p];
    let mut acc: Vec<char> = Vec::new();
    let mut i = p + 1;
    loop
        invariant
            p < i <= s.len(),
            q == s@[p as int],
            string_body(s@, i as nat, q, acc@) == string_at(s@, p as nat),
        decreases s.len() - i,
    {
        if i >= s.len() {
            return None;
        }
        let c = s[i];
        if c == q {
            return Some((string_of(&acc), i + 1));
        }
        if c == '\\' {
            if i + 1 < s.len() {
                match string_escape_of(s[i + 1]) {
                    Some(e) => {
                        acc.push(e);
                        i = i + 2;
                    },
                    None => {
                        return None;
                    },
                }
            } else {
                return None;
            }
        } else {
            acc.push(c);
            i = i + 1;
        }
    }
}

fn read_regex(s: &Vec<char>, p: usize) -> (r: Option<(String, usize)>)
    ensures
        match r {
            Some((v, e)) => regex_at(s@, p as nat) == Some((v@, e as nat)),
            None => regex_at(s@, p as nat) is None,
        },
{
    if !(p < s.len() && s[p] == '/') {
        return None;
    }
    let mut acc: Vec<char> = Vec::new();
    let mut i = p + 1;
    loop
        invariant
            p < i <= s.len(),
            regex_body(s@, i as nat, acc@) == regex_at(s@, p as nat),
        decreases s.len() - i,
    {
        if i >= s.len() {
            return None;
        }
        let c = s[i];
        if c == '/' {
            if acc.len() > 0 {
                return Some((string_of(&acc), i + 1));
            } else {
                return None;
            }
        }
        if c == '\\' {
            if i + 1 < s.len() {
                if s[i + 1] == '/' {
                    acc.push('/');
                } else {
                    acc.push('\\');
                    acc.push(s[i + 1]);
                }
                i = i + 2;
            } else {
                return None;
            }
        } else {
            acc.push(c);
            i = i + 1;
        }
    }
}

fn is_ascii_alpha_char(c: char) -> (r: bool)
    ensures
        r == is_ascii_alpha(c),
{
    ('a' <= c && c <= 'z') || ('A' <= c && c <= 'Z')
}

fn is_ascii_alnum_char(c: char) -> (r: bool)
    ensures
        r == is_ascii_alnum(c),
{
    is_ascii_alpha_char(c) || ('0' <= c && c <= '9')
}

fn read_keyword_end(s: &Vec<char>, i: usize) -> (r: usize)
    requires
        i <= s.len(),
    ensures
        r == keyword_end(s@, i as nat),
{
    let mut k = i;
    while k < s.len() && (is_ascii_alnum_char(s[k]) || s[k] == '-')
        invariant
            i <= k <= s.len(),
            keyword_end(s@, k as nat) == keyword_end(s@, i as nat),
        decreases s.len() - k,
    {
        k = k + 1;
    }
    k
}

fn read_args(s: &Vec<char>, p: usize) -> (r: (Vec<String>, usize))
    requires
        p <= s.len(),
    ensures
        args_at(s@, p as nat) == (strs(r.0@), r.1 as nat),
{
    let mut xs: Vec<String> = Vec::new();
    let mut e = p;
    match read_string(s, p) {
        None => {
            assert(strs(xs@) =~= Seq::<Seq<char>>::empty());
        },
        Some((v, e0)) => {
            proof {
                lemma_string_at(s@, p as nat);
            }
            xs.push(v);
            assert(strs(xs@) =~= seq![v@]);
            let mut i = e0;
            loop
                invariant
                    i <= s.len(),
                    args_more(s@, i as nat, strs(xs@)) == args_more(s@, e0 as nat, seq![v@]),
                ensures
                    i <= s.len(),
                    args_more(s@, e0 as nat, seq![v@]) == (strs(xs@), i as nat),
                decreases s.len() - i,
            {
                let j = skip_multispace(s, i);
                if !(j < s.len() && s[j] == ',') {
                    break;
                }
                let k = skip_multispace(s, j + 1);
                match read_string(s, k) {
                    Some((v2, e2)) => {
                        proof {
                            lemma_string_at(s@, k as nat);
                        }
                        let ghost before = xs@;
                        xs.push(v2);
                        assert(strs(xs@) =~= strs(before).push(v2@));
                        i = e2;
                    },
                    None => {
                        break;
                    },
                }
            }
            e = i;
        },
    }
    if e < s.len() && s[e] == ',' {
        (xs, e + 1)
    } else {
        (xs, e)
    }
}

fn read_filter(s: &Vec<char>, p: usize) -> (r: Option<(Filter, usize)>)
    requires
        p <= s.len(),
    ensures
        match r {
            Some((f, e)) => filter_at(s@, p as nat) == Some((f@, e as nat)),
            None => filter_at(s@, p as nat) is None,
        },
{
    if p < s.len() && is_ascii_alpha_char(s[p]) {
        let e = read_keyword_end(s, p + 1);
        proof {
            lemma_keyword_end(s@, (p + 1) as nat);
        }
        if e < s.len() && s[e] == '(' {
            let a = skip_multispace(s, e + 1);
            let (args, b) = read_args(s, a);
            proof {
                lemma_args_at(s@, a as nat);
            }
            let c = skip_multispace(s, b);
            if c < s.len() && s[c] == ')' {
                let name = string_of(&chars_between(s, p, e));
                Some((Filter { name, args }, c + 1))
            } else {
                None
            }
        } else {
            None
        }
    } else {
        match read_string(s, p) {
            Some((v, e)) => {
                let mut args: Vec<String> = Vec::new();
                args.push(v);
                let name = String::from_str("eq");
                proof {
                    reveal_strlit("eq");
                    assert(name@ =~= eq_name());
                    assert(strs(args@) =~= seq![v@]);
                }
                Some((Filter { name, args }, e))
            },
            None => match read_regex(s, p) {
                Some((v, e)) => {
                    let mut args: Vec<String> = Vec::new();
                    args.push(v);
                    let name = String::from_str("regex");
                    proof {
                        reveal_strlit("regex");
                        assert(name@ =~= regex_name());
                        assert(strs(args@) =~= seq![v@]);
                    }
                    Some((Filter { name, args }, e))
                },
                None => None,
            },
        }
    }
}

fn read_filters(s: &Vec<char>, p: usize) -> (r: Option<(Vec<Filter>, usize)>)
    requires
        p <= s.len(),
    ensures
        match r {
            Some((fs, e)) => filters_at(s@, p as nat) == Some((filters_view(fs@), e as nat)),
            None => filters_at(s@, p as nat) is None,
        },
{
    match read_filter(s, p) {
        None => None,
        Some((f, e0)) => {
            proof {
                lemma_filter_at(s@, p as nat);
            }
            let ghost fv = f@;
            let mut xs: Vec<Filter> = Vec::new();
            xs.push(f);
            assert(filters_view(xs@) =~= seq![fv]);
            let mut i = e0;
            loop
                invariant
                    i <= s.len(),
                    filters_more(s@, i as nat, filters_view(xs@)) == filters_more(s@, e0 as nat, seq![fv]),
                ensures
                    i <= s.len(),
                    filters_more(s@, e0 as nat, seq![fv]) == (filters_view(xs@), i as nat),
                decreases s.len() - i,
            {
                let j = skip_multispace(s, i);
                if !(j < s.len() && s[j] == ',') {
                    break;
                }
                let k = skip_multispace(s, j + 1);
                match read_filter(s, k) {
                    Some((f2, e2)) => {
                        proof {
                            lemma_filter_at(s@, k as nat);
                        }
                        let ghost before = xs@;
                        xs.push(f2);
                        assert(filters_view(xs@) =~= filters_view(before).push(f2@));
                        i = e2;
                    },
                    None => {
                        break;
                    },
                }
            }
            if i < s.len() && s[i] == ',' {
                Some((xs, i + 1))
            } else {
                Some((xs, i))
            }
        },
    }
}

fn read_patterns(s: &Vec<char>, p: usize) -> (r: (Vec<Pattern>, usize))
    requires
        p <= s.len(),
    ensures
        patterns_at(s@, p as nat) == (patterns_view(r.0@), r.1 as nat),
{
    let mut xs: Vec<Pattern> = Vec::new();
    let mut e = p;
    match read_filters(s, p) {
        None => {
            assert(patterns_view(xs@) =~= Seq::<Seq<FilterView>>::empty());
        },
        Some((fs, e0)) => {
            proof {
                lemma_filters_at(s@, p as nat);
            }
            let ghost fv = filters_view(fs@);
            xs.push(Pattern(fs));
            assert(patterns_view(xs@) =~= seq![fv]);
            let mut i = e0;
            loop
                invariant
                    i <= s.len(),
                    patterns_more(s@, i as nat, patterns_view(xs@)) == patterns_more(s@, e0 as nat, seq![fv]),
                ensures
                    i <= s.len(),
                    patterns_more(s@, e0 as nat, seq![fv]) == (patterns_view(xs@), i as nat),
                decreases s.len() - i,
            {
                let j = skip_multispace(s, i);
                if !(j < s.len() && s[j] == ';') {
                    break;
                }
                let k = skip_multispace(s, j + 1);
                match read_filters(s, k) {
                    Some((fs2, e2)) => {
                        proof {
                            lemma_filters_at(s@, k as nat);
                        }
                        let ghost before = xs@;
                        let pat = Pattern(fs2);
                        assert(pat@ == filters_view(fs2@));
                        xs.push(pat);
                        assert(patterns_view(xs@) =~= patterns_view(before).push(pat@));
                        i = e2;
                    },
                    None => {
                        break;
                    },
                }
            }
            e = i;
        },
    }
    if e < s.len() && s[e] == ';' {
        (xs, e + 1)
    } else {
        (xs, e)
    }
}

fn read_name_end(s: &Vec<char>, i: usize) -> (r: usize)
    requires
        i <= s.len(),
    ensures
        r == name_end(s@, i as nat),
{
    let mut k = i;
    while k < s.len() && (is_ascii_alnum_char(s[k]) || s[k] == '-' || s[k] == '_')
        invariant
            i <= k <= s.len(),
            name_end(s@, k as nat) == name_end(s@, i as nat),
        decreases s.len() - k,
    {
        k = k + 1;
    }
    k
}

fn quantifier_from(c: char) -> (r: Option<Quantifier>)
    ensures
        r == quantifier_of(c),
{
    if c == '?' {
        Some(Quantifier::MaybeOnce)
    } else if c == '*' {
        Some(Quantifier::Many0)
    } else if c == '+' {
        Some(Quantifier::Many1)
    } else {
        None
    }
}

/// Converts the outcome of a parser that may commit.
pub open spec fn step_of<T: View>(r: Parsed<T>) -> Step<T::V> {
    match r {
        Parsed::Done(v, e) => Step::Done(v@, e as nat),
        Parsed::Miss => Step::Miss,
        Parsed::Fail(x, d) => Step::Fail(x as nat, d),
    }
}

/// The outcome of a parser that may commit; see [`Step`].
pub enum Parsed<T> {
    Done(T, usize),
    Miss,
    Fail(usize, char),
}

fn read_capture(s: &Vec<char>, p: usize) -> (r: Parsed<Capture>)
    requires
        p <= s.len(),
    ensures
        step_of(r) == capture_at(s@, p as nat),
{
    if !(p < s.len() && s[p] == '<') {
        return Parsed::Miss;
    }
    let a = skip_multispace(s, p + 1);
    let ne = read_name_end(s, a);
    proof {
        lemma_name_quantifier_at(s@, a as nat);
    }
    let m = skip_multispace(s, ne);
    let name = string_of(&chars_between(s, a, ne));
    let (quantifier, e1) = if m < s.len() && quantifier_from(s[m]).is_some() {
        (quantifier_from(s[m]).unwrap(), m + 1)
    } else {
        (Quantifier::Once, m)
    };
    let c = skip_multispace(s, e1);
    let (patterns, e2) = if c < s.len() && s[c] == ':' {
        let d = skip_multispace(s, c + 1);
        proof {
            lemma_patterns_at(s@, d as nat);
        }
        read_patterns(s, d)
    } else {
        let v: Vec<Pattern> = Vec::new();
        assert(patterns_view(v@) =~= Seq::<Seq<FilterView>>::empty());
        (v, e1)
    };
    let f = skip_multispace(s, e2);
    if f < s.len() && s[f] == '>' {
        Parsed::Done(Capture { name, quantifier, patterns }, f + 1)
    } else {
        Parsed::Fail(f, '>')
    }
}

fn read_members(s: &Vec<char>, p: usize) -> (r: Parsed<Vec<Capture>>)
    requires
        p <= s.len(),
    ensures
        match r {
            Parsed::Done(cs, e) => members_from(s@, p as nat, Seq::empty()) == Step::Done(captures_view(cs@), e as nat),
            Parsed::Fail(x, d) => members_from(s@, p as nat, Seq::empty()) == Step::<Seq<CaptureView>>::Fail(x as nat, d),
            Parsed::Miss => false,
        },
{
    let mut acc: Vec<Capture> = Vec::new();
    let mut i = p;
    assert(captures_view(acc@) =~= Seq::<CaptureView>::empty());
    loop
        invariant
            i <= s.len(),
            members_from(s@, i as nat, captures_view(acc@)) == members_from(s@, p as nat, Seq::empty()),
        decreases s.len() - i,
    {
        let j = skip_multispace(s, i);
        proof {
            lemma_capture_at(s@, j as nat);
        }
        match read_capture(s, j) {
            Parsed::Miss => {
                return Parsed::Done(acc, i);
            },
            Parsed::Fail(x, d) => {
                return Parsed::Fail(x, d);
            },
            Parsed::Done(c, k) => {
                let ghost before = acc@;
                let ghost cv = c@;
                acc.push(c);
                assert(captures_view(acc@) =~= captures_view(before).push(cv));
                i = skip_multispace(s, k);
            },
        }
    }
}

fn read_group(s: &Vec<char>, p: usize, open: char, close: char) -> (r: Parsed<Vec<Capture>>)
    requires
        p <= s.len(),
    ensures
        match r {
            Parsed::Done(cs, e) => group_at(s@, p as nat, open, close) == Step::Done(captures_view(cs@), e as nat),
            Parsed::Fail(x, d) => group_at(s@, p as nat, open, close) == Step::<Seq<CaptureView>>::Fail(x as nat, d),
            Parsed::Miss => group_at(s@, p as nat, open, close) is Miss,
        },
{
    if !(p < s.len() && s[p] == open) {
        return Parsed::Miss;
    }
    proof {
        lemma_members_from(s@, (p + 1) as nat, Seq::empty());
    }
    match read_members(s, p + 1) {
        Parsed::Done(cs, i) => {
            if i < s.len() && s[i] == close {
                Parsed::Done(cs, i + 1)
            } else {
                Parsed::Fail(i, close)
            }
        },
        Parsed::Fail(x, d) => Parsed::Fail(x, d),
        Parsed::Miss => Parsed::Miss,
    }
}

fn literal_escape_of(c: char) -> (r: Option<char>)
    ensures
        r == literal_escape(c),
{
    if c == '\\' {
        Some('\\')
    } else if c == 'n' {
        Some('\n')
    } else if c == '<' {
        Some('<')
    } else if c == 'r' {
        Some('\r')
    } else if c == 't' {
        Some('\t')
    } else {
        None
    }
}

fn read_literal(s: &Vec<char>, p: usize) -> (r: Option<(String, usize)>)
    requires
        p <= s.len(),
    ensures
        match r {
            Some((t, e)) => literal_at(s@, p as nat) == Some((t@, e as nat)),
            None => literal_at(s@, p as nat) is None,
        },
{
    let mut acc: Vec<char> = Vec::new();
    let mut i = p;
    loop
        invariant
            p <= i <= s.len(),
            literal_body(s@, i as nat, acc@) == literal_body(s@, p as nat, Seq::empty()),
        ensures
            p <= i <= s.len(),
            literal_body(s@, p as nat, Seq::empty()) == (acc@, i as nat),
        decreases s.len() - i,
    {
        if i >= s.len() {
            break;
        }
        let c = s[i];
        if !(c == ' ' || c == '\t' || c == '\n' || c == '\r' || c == '\\') {
            acc.push(c);
            i = i + 1;
        } else if c == '\\' && i + 1 < s.len() && (s[i + 1] == ' ' || s[i + 1] == '\t') {
            let mut e = i + 1;
            while e < s.len() && (s[e] == ' ' || s[e] == '\t')
                invariant
                    i + 1 <= e <= s.len(),
                    space_tab_end(s@, e as nat) == space_tab_end(s@, (i + 1) as nat),
                decreases s.len() - e,
            {
                e = e + 1;
            }
            let ghost before = acc@;
            let mut k = i + 1;
            while k < e
                invariant
                    i + 1 <= k <= e <= s.len(),
                    acc@ == before + s@.subrange((i + 1) as int, k as int),
                decreases e - k,
            {
                acc.push(s[k]);
                assert(acc@ =~= before + s@.subrange((i + 1) as int, k + 1));
                k = k + 1;
            }
            i = e;
        } else if c == '\\' && i + 1 < s.len() && literal_escape_of(s[i + 1]).is_some() {
            acc.push(literal_escape_of(s[i + 1]).unwrap());
            i = i + 2;
        } else {
            break;
        }
    }
    if i > p {
        Some((string_of(&acc), i))
    } else {
        None
    }
}

fn read_segment(s: &Vec<char>, p: usize) -> (r: Parsed<Segment>)
    requires
        p <= s.len(),
    ensures
        step_of(r) == segment_at(s@, p as nat),
{
    if p < s.len() && s[p] == '[' {
        match read_group(s, p, '[', ']') {
            Parsed::Done(cs, e) => Parsed::Done(Segment::PriorityGroup(cs), e),
            Parsed::Fail(x, d) => Parsed::Fail(x, d),
            Parsed::Miss => Parsed::Miss,
        }
    } else if p < s.len() && s[p] == '{' {
        match read_group(s, p, '{', '}') {
            Parsed::Done(cs, e) => Parsed::Done(Segment::Group(cs), e),
            Parsed::Fail(x, d) => Parsed::Fail(x, d),
            Parsed::Miss => Parsed::Miss,
        }
    } else if p < s.len() && s[p] == '<' {
        match read_capture(s, p) {
            Parsed::Done(c, e) => Parsed::Done(Segment::Capture(c), e),
            Parsed::Fail(x, d) => Parsed::Fail(x, d),
            Parsed::Miss => Parsed::Miss,
        }
    } else {
        match read_literal(s, p) {
            Some((t, e)) => Parsed::Done(Segment::Text(t), e),
            None => Parsed::Miss,
        }
    }
}

fn read_command(s: &Vec<char>) -> (r: Result<Vec<Segment>, (usize, char)>)
    ensures
        match r {
            Ok(segs) => command_of(s@) == Ok::<Seq<SegmentView>, (nat, char)>(segments_view(segs@)),
            Err((x, d)) => command_of(s@) == Err::<Seq<SegmentView>, (nat, char)>((x as nat, d)),
        },
{
    let mut acc: Vec<Segment> = Vec::new();
    let mut i: usize = 0;
    assert(segments_view(acc@) =~= Seq::<SegmentView>::empty());
    loop
        invariant
            i <= s.len(),
            command_from(s@, i as nat, segments_view(acc@)) == command_of(s@),
        decreases s.len() - i,
    {
        let j = skip_multispace(s, i);
        proof {
            lemma_segment_at(s@, j as nat);
        }
        match read_segment(s, j) {
            Parsed::Miss => {
                return Ok(acc);
            },
            Parsed::Fail(x, d) => {
                return Err((x, d));
            },
            Parsed::Done(seg, k) => {
                let ghost before = acc@;
                let ghost sv = seg@;
                acc.push(seg);
                assert(segments_view(acc@) =~= segments_view(before).push(sv));
                i = skip_multispace(s, k);
            },
        }
    }
}

// ---- the public parsing functions

/// Why a parsing function gave no value.
#[derive(Clone, Copy, Eq, PartialEq, Debug, Structural)]
pub enum ParseError {
    /// The input does not start with what the function reads.
    NoMatch,
    /// The function was committed to its construct, but the closing
    /// `delimiter` was missing at character position `at`.
    Unclosed { at: usize, delimiter: char },
}

/// A syntax error in a template.
#[derive(Clone, Eq, PartialEq, Debug)]
pub struct SyntaxError {
    /// How many line feeds come before the failure.
    pub line_no: usize,
    /// The column of the failure in its line, in characters from zero.
    pub col: usize,
    /// The text of the failure's line.
    pub line: String,
    pub msg: &'static str,
}

/// The message for a closing delimiter that is missing.
pub open spec fn missing_delimiter(d: char) -> &'static str {
    if d == '>' {
        "missing closing delimiter: '>'"
    } else if d == ']' {
        "missing closing delimiter: ']'"
    } else {
        "missing closing delimiter: '}'"
    }
}

fn missing_delimiter_msg(d: char) -> (r: &'static str)
    ensures
        r == missing_delimiter(d),
{
    if d == '>' {
        "missing closing delimiter: '>'"
    } else if d == ']' {
        "missing closing delimiter: ']'"
    } else {
        "missing closing delimiter: '}'"
    }
}

/// The error of a step: no match, or the missing delimiter and where.
pub open spec fn step_error<T>(st: Step<T>) -> ParseError {
    match st {
        Step::Fail(x, d) => ParseError::Unclosed { at: x as usize, delimiter: d },
        _ => ParseError::NoMatch,
    }
}

fn tail_of<'a>(input: &'a str, len: usize, e: usize) -> (r: &'a str)
    requires
        len == input@.len(),
        e <= len,
    ensures
        r@ == input@.skip(e as int),
{
    let r = input.substring_char(e, len);
    assert(r@ =~= input@.skip(e as int));
    r
}

/// Reads a quoted string (`'...'`, `` `...` `` or `"..."`, with the escapes
/// `\\ \n \r \t \' \` \"`) at the start of `input`; hands back the rest and
/// the string's value.
pub fn parse_string(input: &str) -> (r: Result<(&str, String), ParseError>)
    ensures
        match r {
            Ok((rest, v)) => string_at(input@, 0) matches Some((w, e)) && v@ == w && rest@ == input@.skip(e as int),
            Err(err) => string_at(input@, 0) is None && err == ParseError::NoMatch,
        },
{
    let s = chars_of(input);
    match read_string(&s, 0) {
        Some((v, e)) => {
            proof {
                lemma_string_at(s@, 0);
            }
            Ok((tail_of(input, s.len(), e), v))
        },
        None => Err(ParseError::NoMatch),
    }
}

/// Reads a regex literal `/.../` at the start of `input`.
pub fn parse_regex(input: &str) -> (r: Result<(&str, String), ParseError>)
    ensures
        match r {
            Ok((rest, v)) => regex_at(input@, 0) matches Some((w, e)) && v@ == w && rest@ == input@.skip(e as int),
            Err(err) => regex_at(input@, 0) is None && err == ParseError::NoMatch,
        },
{
    let s = chars_of(input);
    match read_regex(&s, 0) {
        Some((v, e)) => {
            proof {
                lemma_regex_body(s@, 1, Seq::empty());
            }
            Ok((tail_of(input, s.len(), e), v))
        },
        None => Err(ParseError::NoMatch),
    }
}

/// Reads a filter at the start of `input`: `name(args)`, a string (short
/// for `eq(string)`) or a regex literal (short for `regex(source)`).
pub fn parse_filter(input: &str) -> (r: Result<(&str, Filter), ParseError>)
    ensures
        match r {
            Ok((rest, f)) => filter_at(input@, 0) matches Some((w, e)) && f@ == w && rest@ == input@.skip(e as int),
            Err(err) => filter_at(input@, 0) is None && err == ParseError::NoMatch,
        },
{
    let s = chars_of(input);
    match read_filter(&s, 0) {
        Some((f, e)) => {
            proof {
                lemma_filter_at(s@, 0);
            }
            Ok((tail_of(input, s.len(), e), f))
        },
        None => Err(ParseError::NoMatch),
    }
}

/// Reads literal text at the start of `input`.
pub fn parse_literal(input: &str) -> (r: Result<(&str, String), ParseError>)
    ensures
        match r {
            Ok((rest, v)) => literal_at(input@, 0) matches Some((w, e)) && v@ == w && rest@ == input@.skip(e as int),
            Err(err) => literal_at(input@, 0) is None && err == ParseError::NoMatch,
        },
{
    let s = chars_of(input);
    match read_literal(&s, 0) {
        Some((v, e)) => {
            proof {
                lemma_literal_body(s@, 0, Seq::empty());
            }
            Ok((tail_of(input, s.len(), e), v))
        },
        None => Err(ParseError::NoMatch),
    }
}

/// Reads a capture `<name quantifier: patterns>` at the start of `input`.
pub fn parse_capture(input: &str) -> (r: Result<(&str, Capture), ParseError>)
    ensures
        match r {
            Ok((rest, c)) => capture_at(input@, 0) matches Step::Done(w, e) && c@ == w && rest@ == input@.skip(e as int),
            Err(err) => !(capture_at(input@, 0) is Done) && err == step_error(capture_at(input@, 0)),
        },
{
    let s = chars_of(input);
    proof {
        lemma_capture_at(s@, 0);
    }
    match read_capture(&s, 0) {
        Parsed::Done(c, e) => Ok((tail_of(input, s.len(), e), c)),
        Parsed::Miss => Err(ParseError::NoMatch),
        Parsed::Fail(x, d) => Err(ParseError::Unclosed { at: x, delimiter: d }),
    }
}

fn parse_any_group<'a>(input: &'a str, open: char, close: char) -> (r: Result<(&'a str, Vec<Capture>), ParseError>)
    ensures
        match r {
            Ok((rest, cs)) => group_at(input@, 0, open, close) matches Step::Done(w, e) && captures_view(cs@) == w
                && rest@ == input@.skip(e as int),
            Err(err) => !(group_at(input@, 0, open, close) is Done) && err == step_error(group_at(input@, 0, open, close)),
        },
{
    let s = chars_of(input);
    proof {
        lemma_group_at(s@, 0, open, close);
    }
    match read_group(&s, 0, open, close) {
        Parsed::Done(cs, e) => Ok((tail_of(input, s.len(), e), cs)),
        Parsed::Miss => Err(ParseError::NoMatch),
        Parsed::Fail(x, d) => Err(ParseError::Unclosed { at: x, delimiter: d }),
    }
}

/// Reads a priority group `[...]` at the start of `input`.
pub fn parse_priority_group(input: &str) -> (r: Result<(&str, Vec<Capture>), ParseError>)
    ensures
        match r {
            Ok((rest, cs)) => group_at(input@, 0, '[', ']') matches Step::Done(w, e) && captures_view(cs@) == w
                && rest@ == input@.skip(e as int),
            Err(err) => !(group_at(input@, 0, '[', ']') is Done) && err == step_error(group_at(input@, 0, '[', ']')),
        },
{
    parse_any_group(input, '[', ']')
}

/// Reads a group `{...}` at the start of `input`.
pub fn parse_group(input: &str) -> (r: Result<(&str, Vec<Capture>), ParseError>)
    ensures
        match r {
            Ok((rest, cs)) => group_at(input@, 0, '{', '}') matches Step::Done(w, e) && captures_view(cs@) == w
                && rest@ == input@.skip(e as int),
            Err(err) => !(group_at(input@, 0, '{', '}') is Done) && err == step_error(group_at(input@, 0, '{', '}')),
        },
{
    parse_any_group(input, '{', '}')
}

/// Reads one segment at the start of `input`.
pub fn parse_segment(input: &str) -> (r: Result<(&str, Segment), ParseError>)
    ensures
        match r {
            Ok((rest, seg)) => segment_at(input@, 0) matches Step::Done(w, e) && seg@ == w && rest@ == input@.skip(e as int),
            Err(err) => !(segment_at(input@, 0) is Done) && err == step_error(segment_at(input@, 0)),
        },
{
    let s = chars_of(input);
    proof {
        lemma_segment_at(s@, 0);
    }
    match read_segment(&s, 0) {
        Parsed::Done(seg, e) => Ok((tail_of(input, s.len(), e), seg)),
        Parsed::Miss => Err(ParseError::NoMatch),
        Parsed::Fail(x, d) => Err(ParseError::Unclosed { at: x, delimiter: d }),
    }
}

/// The syntax error for a failure at `x` where `d` was missing.
pub open spec fn syntax_error_at(e: SyntaxError, s: Seq<char>, x: nat, d: char) -> bool {
    &&& e.line_no == newlines_before(s, x)
    &&& e.col == x - line_start(s, x)
    &&& e.line@ == s.subrange(line_start(s, x) as int, line_end(s, x) as int)
    &&& e.msg == missing_delimiter(d)
}

proof fn lemma_line_bounds(s: Seq<char>, n: nat)
    requires
        n <= s.len(),
    ensures
        line_start(s, n) <= n <= line_end(s, n) <= s.len(),
        newlines_before(s, n) <= n,
    decreases n,
{
    if n > 0 {
        lemma_line_bounds(s, (n - 1) as nat);
    }
    lemma_line_end(s, n);
}

proof fn lemma_line_end(s: Seq<char>, n: nat)
    requires
        n <= s.len(),
    ensures
        n <= line_end(s, n) <= s.len(),
    decreases s.len() - n,
{
    if n < s.len() && s[n as int] != '\n' {
        lemma_line_end(s, n + 1);
    }
}

fn locate(s: &Vec<char>, x: usize, d: char) -> (r: SyntaxError)
    requires
        x <= s.len(),
    ensures
        syntax_error_at(r, s@, x as nat, d),
{
    proof {
        lemma_line_bounds(s@, x as nat);
    }
    let mut k: usize = 0;
    let mut newlines: usize = 0;
    let mut start: usize = 0;
    while k < x
        invariant
            k <= x <= s.len(),
            newlines == newlines_before(s@, k as nat),
            start == line_start(s@, k as nat),
            newlines <= k,
        decreases x - k,
    {
        if s[k] == '\n' {
            newlines = newlines + 1;
            start = k + 1;
        }
        k = k + 1;
        proof {
            lemma_line_bounds(s@, k as nat);
        }
    }
    let mut end = x;
    while end < s.len() && s[end] != '\n'
        invariant
            x <= end <= s.len(),
            line_end(s@, end as nat) == line_end(s@, x as nat),
        decreases s.len() - end,
    {
        end = end + 1;
    }
    SyntaxError {
        line_no: newlines,
        col: x - start,
        line: string_of(&chars_between(s, start, end)),
        msg: missing_delimiter_msg(d),
    }
}

/// Parses a whole command template into its segments. Reading stops at the
/// first place where no segment can be read.
pub fn parse_command(input: &str) -> (r: Result<Vec<Segment>, SyntaxError>)
    ensures
        match r {
            Ok(segs) => command_of(input@) == Ok::<Seq<SegmentView>, (nat, char)>(segments_view(segs@)),
            Err(e) => command_of(input@) matches Err((x, d)) && syntax_error_at(e, input@, x, d),
        },
{
    let s = chars_of(input);
    match read_command(&s) {
        Ok(segs) => Ok(segs),
        Err((x, d)) => {
            proof {
                lemma_command_fail(s@, 0, Seq::empty());
            }
            Err(locate(&s, x, d))
        },
    }
}

proof fn lemma_command_fail(s: Seq<char>, i: nat, acc: Seq<SegmentView>)
    requires
        i <= s.len(),
    ensures
        command_from(s, i, acc) matches Err((x, d)) ==> x <= s.len(),
    decreases s.len() - i,
{
    let j = multispace_end(s, i);
    crate::text::lemma_multispace_end_bounds(s, i);
    lemma_segment_fail(s, j);
    lemma_segment_at(s, j);
    if let Step::Done(seg, k) = segment_at(s, j) {
        crate::text::lemma_multispace_end_bounds(s, k);
        lemma_command_fail(s, multispace_end(s, k), acc.push(seg));
    }
}

proof fn lemma_members_fail(s: Seq<char>, i: nat, acc: Seq<CaptureView>)
    requires
        i <= s.len(),
    ensures
        members_from(s, i, acc) matches Step::Fail(x, d) ==> x <= s.len(),
    decreases s.len() - i,
{
    let j = multispace_end(s, i);
    crate::text::lemma_multispace_end_bounds(s, i);
    lemma_capture_at(s, j);
    if let Step::Done(c, k) = capture_at(s, j) {
        crate::text::lemma_multispace_end_bounds(s, k);
        lemma_members_fail(s, multispace_end(s, k), acc.push(c));
    }
}

proof fn lemma_segment_fail(s: Seq<char>, p: nat)
    requires
        p <= s.len(),
    ensures
        segment_at(s, p) matches Step::Fail(x, d) ==> x <= s.len(),
{
    lemma_capture_at(s, p);
    if p < s.len() {
        lemma_members_fail(s, p + 1, Seq::empty());
        lemma_members_from(s, p + 1, Seq::empty());
    }
}

/// The short form of a syntax error: `line:col: message`.
pub open spec fn syntax_message(e: SyntaxError) -> Seq<char> {
    decimal(e.line_no as nat) + ":"@ + decimal(e.col as nat) + ": "@ + e.msg@
}

/// The line up to the error, blanked but for tabs, with a caret after it.
pub open spec fn caret_line(line: Seq<char>, col: nat) -> Seq<char> {
    let n = if col == 0 { 0 } else { col - 1 };
    line.take(n as int).map_values(|c: char| if c == '\t' { '\t' } else { ' ' }).push('^')
}

impl SyntaxError {
    /// `line:col: message`.
    pub fn message(&self) -> (r: String)
        ensures
            r@ == syntax_message(*self),
    {
        let mut r = decimal_text(self.line_no);
        r.append(":");
        let c = decimal_text(self.col);
        r.append(c.as_str());
        r.append(": ");
        r.append(self.msg);
        r
    }

    /// The short form, followed by the line and a caret under the error
    /// when the line is known and the column lies within it.
    pub fn report(&self) -> (r: String)
        ensures
            r@ == if self.line@.len() > 0 && self.col <= self.line@.len() {
                syntax_message(*self) + "\n|\n| "@ + self.line@ + "\n| "@ + caret_line(self.line@, self.col as nat)
            } else {
                syntax_message(*self)
            },
    {
        let line = chars_of(self.line.as_str());
        let mut r = self.message();
        if line.len() > 0 && self.col <= line.len() {
            let n = if self.col == 0 { 0 } else { self.col - 1 };
            let mut pad: Vec<char> = Vec::new();
            let mut k: usize = 0;
            while k < n
                invariant
                    n <= line.len(),
                    k <= n,
                    pad@ == line@.take(k as int).map_values(|c: char| if c == '\t' { '\t' } else { ' ' }),
                decreases n - k,
            {
                pad.push(if line[k] == '\t' { '\t' } else { ' ' });
                assert(line@.take(k + 1) =~= line@.take(k as int).push(line@[k as int]));
                assert(pad@ =~= line@.take(k + 1).map_values(|c: char| if c == '\t' { '\t' } else { ' ' }));
                k = k + 1;
            }
            pad.push('^');
            r.append("\n|\n| ");
            r.append(self.line.as_str());
            r.append("\n| ");
            let p = string_of(&pad);
            r.append(p.as_str());
        }
        r
    }
}

} // verus!
