//! Matching one pattern against the input at a position.
//!
//! A successful attempt gives `(a, b, r)`: the captured span `a..b` and the
//! position `r` where the rest of the input starts.
use vstd::prelude::*;
use crate::ast::{Pattern, PatternModel};
use crate::regex_set::{regex_set_matches, strs, RegexFilter};
use crate::text::{
    chars_of, find_from, find_word_end, lemma_first_occurrence_bounds, matches_at_case, multispace_end,
    skip_multispace, skip_whitespace, starts_at_case, trim_end_at, trimmed_end, word_end, ws_end,
    first_occurrence,
};

verus! {

/// An optional regex set accepts the span `a..b` of `s`.
pub open spec fn regex_accepts(reg: Option<Seq<Seq<char>>>, s: Seq<char>, a: nat, b: nat) -> bool {
    match reg {
        None => true,
        Some(sources) => regex_set_matches(sources, s.subrange(a as int, b as int)),
    }
}

/// A non-empty word after leading spaces, accepted by `reg`.
pub open spec fn word_at(reg: Option<Seq<Seq<char>>>, s: Seq<char>, pos: nat) -> Option<(nat, nat, nat)> {
    let a = multispace_end(s, pos);
    let b = word_end(s, a);
    if a < b && regex_accepts(reg, s, a, b) {
        Some((a, b, b))
    } else {
        None
    }
}

/// The first of `any_of[i..]` that occurs at `a`; the capture is that occurrence.
pub open spec fn eq_at(any_of: Seq<Seq<char>>, no_case: bool, s: Seq<char>, a: nat, i: nat) -> Option<(nat, nat, nat)>
    decreases any_of.len() - i,
{
    if i >= any_of.len() {
        None
    } else if starts_at_case(s, a, any_of[i as int], no_case) {
        Some((a, a + any_of[i as int].len(), a + any_of[i as int].len()))
    } else {
        eq_at(any_of, no_case, s, a, i + 1)
    }
}

/// Ends only: for the first usable `ends[i..]`, the non-empty text before its
/// next occurrence, which is consumed too.
pub open spec fn ends_only_at(ends: Seq<Seq<char>>, reg: Option<Seq<Seq<char>>>, s: Seq<char>, a: nat, i: nat) -> Option<(nat, nat, nat)>
    decreases ends.len() - i,
{
    if i >= ends.len() {
        None
    } else {
        match first_occurrence(s, a, ends[i as int]) {
            Some(q) if a < q && regex_accepts(reg, s, a, q) => Some((a, q, q + ends[i as int].len())),
            _ => ends_only_at(ends, reg, s, a, i + 1),
        }
    }
}

/// Starts only: for the first usable `starts[i..]` at `a`, the non-empty word
/// that follows it; with `no_trim` the capture keeps the prefix.
pub open spec fn starts_only_at(
    starts: Seq<Seq<char>>,
    reg: Option<Seq<Seq<char>>>,
    no_case: bool,
    no_trim: bool,
    s: Seq<char>,
    a: nat,
    i: nat,
) -> Option<(nat, nat, nat)>
    decreases starts.len() - i,
{
    if i >= starts.len() {
        None
    } else {
        let body = a + starts[i as int].len();
        let b = word_end(s, body);
        let ca = if no_trim { a } else { body };
        if starts_at_case(s, a, starts[i as int], no_case) && body < b && regex_accepts(reg, s, ca, b) {
            Some((ca, b, b))
        } else {
            starts_only_at(starts, reg, no_case, no_trim, s, a, i + 1)
        }
    }
}

/// Both: for the first usable pair (`starts[i]`, `ends[j]`) in order, the text
/// between the start at `a` and the next occurrence of the end; with `no_trim`
/// the whole span, delimiters included, without trailing whitespace.
pub open spec fn enclosed_at(
    starts: Seq<Seq<char>>,
    ends: Seq<Seq<char>>,
    reg: Option<Seq<Seq<char>>>,
    no_case: bool,
    no_trim: bool,
    s: Seq<char>,
    a: nat,
    i: nat,
    j: nat,
) -> Option<(nat, nat, nat)>
    decreases starts.len() - i, ends.len() - j,
{
    if i >= starts.len() {
        None
    } else if j >= ends.len() {
        enclosed_at(starts, ends, reg, no_case, no_trim, s, a, i + 1, 0)
    } else {
        let body = a + starts[i as int].len();
        let next = enclosed_at(starts, ends, reg, no_case, no_trim, s, a, i, j + 1);
        if starts_at_case(s, a, starts[i as int], no_case) && body <= s.len() {
            match first_occurrence(s, body, ends[j as int]) {
                Some(q) => {
                    let r = q + ends[j as int].len();
                    let (ca, cb) = if no_trim { (a, trimmed_end(s, a, r)) } else { (body, q) };
                    if regex_accepts(reg, s, ca, cb) { Some((ca, cb, r)) } else { next }
                },
                None => next,
            }
        } else {
            next
        }
    }
}

/// One attempt of a pattern at `pos`.
pub open spec fn pattern_at(p: PatternModel, s: Seq<char>, pos: nat) -> Option<(nat, nat, nat)> {
    match p {
        PatternModel::Word { reg } => word_at(reg, s, pos),
        PatternModel::Eq { any_of, no_case } => eq_at(any_of, no_case, s, multispace_end(s, pos), 0),
        PatternModel::Delimited { starts, ends, reg, no_case, no_trim } => {
            let a = ws_end(s, pos);
            if starts.len() == 0 {
                ends_only_at(ends, reg, s, a, 0)
            } else if ends.len() == 0 {
                starts_only_at(starts, reg, no_case, no_trim, s, a, 0)
            } else {
                enclosed_at(starts, ends, reg, no_case, no_trim, s, a, 0, 0)
            }
        },
    }
}

/// The first of `ps[i..]` that matches at `pos`.
pub open spec fn first_pattern_at(ps: Seq<PatternModel>, s: Seq<char>, pos: nat, i: nat) -> Option<(nat, nat, nat)>
    decreases ps.len() - i,
{
    if i >= ps.len() {
        None
    } else {
        match pattern_at(ps[i as int], s, pos) {
            Some(h) => Some(h),
            None => first_pattern_at(ps, s, pos, i + 1),
        }
    }
}

/// A hit found by an executable matcher, as positions of the model.
pub open spec fn hit(r: Option<(usize, usize, usize)>) -> Option<(nat, nat, nat)> {
    match r {
        Some((a, b, c)) => Some((a as nat, b as nat, c as nat)),
        None => None,
    }
}

/// A hit lies in the input, its span before or at the rest, and no earlier than `pos`.
pub open spec fn hit_in(r: Option<(usize, usize, usize)>, pos: nat, len: nat) -> bool {
    r matches Some((a, b, c)) ==> pos <= a <= b <= c <= len
}

fn accepts(reg: &Option<RegexFilter>, input: &str, a: usize, b: usize) -> (r: bool)
    requires
        a <= b <= input@.len(),
    ensures
        r == regex_accepts(crate::ast::regex_model(*reg), input@, a as nat, b as nat),
{
    match reg {
        None => true,
        Some(f) => f.is_match(input.substring_char(a, b)),
    }
}

pub fn match_word(reg: &Option<RegexFilter>, input: &str, s: &Vec<char>, pos: usize) -> (r: Option<(usize, usize, usize)>)
    requires
        s@ == input@,
        pos <= s.len(),
    ensures
        hit(r) == word_at(crate::ast::regex_model(*reg), s@, pos as nat),
        hit_in(r, pos as nat, s.len() as nat),
{
    let a = skip_multispace(s, pos);
    let b = find_word_end(s, a);
    if a < b && accepts(reg, input, a, b) {
        Some((a, b, b))
    } else {
        None
    }
}

fn match_eq(any_of: &Vec<String>, no_case: bool, s: &Vec<char>, a: usize) -> (r: Option<(usize, usize, usize)>)
    requires
        a <= s.len(),
    ensures
        hit(r) == eq_at(strs(any_of@), no_case, s@, a as nat, 0),
        hit_in(r, a as nat, s.len() as nat),
{
    let mut i: usize = 0;
    while i < any_of.len()
        invariant
            a <= s.len(),
            i <= any_of.len(),
            eq_at(strs(any_of@), no_case, s@, a as nat, i as nat) == eq_at(strs(any_of@), no_case, s@, a as nat, 0),
        decreases any_of.len() - i,
    {
        let t = chars_of(any_of[i].as_str());
        if matches_at_case(s, a, &t, no_case) {
            return Some((a, a + t.len(), a + t.len()));
        }
        i = i + 1;
    }
    None
}

fn match_ends_only(ends: &Vec<String>, reg: &Option<RegexFilter>, input: &str, s: &Vec<char>, a: usize) -> (r: Option<(usize, usize, usize)>)
    requires
        s@ == input@,
        a <= s.len(),
    ensures
        hit(r) == ends_only_at(strs(ends@), crate::ast::regex_model(*reg), s@, a as nat, 0),
        hit_in(r, a as nat, s.len() as nat),
{
    let mut i: usize = 0;
    while i < ends.len()
        invariant
            s@ == input@,
            a <= s.len(),
            i <= ends.len(),
            ends_only_at(strs(ends@), crate::ast::regex_model(*reg), s@, a as nat, i as nat)
                == ends_only_at(strs(ends@), crate::ast::regex_model(*reg), s@, a as nat, 0),
        decreases ends.len() - i,
    {
        let e = chars_of(ends[i].as_str());
        proof {
            lemma_first_occurrence_bounds(s@, a as nat, e@);
        }
        match find_from(s, a, &e) {
            Some(q) => {
                if a < q && accepts(reg, input, a, q) {
                    return Some((a, q, q + e.len()));
                }
            },
            None => {},
        }
        i = i + 1;
    }
    None
}

fn match_starts_only(
    starts: &Vec<String>,
    reg: &Option<RegexFilter>,
    no_case: bool,
    no_trim: bool,
    input: &str,
    s: &Vec<char>,
    a: usize,
) -> (r: Option<(usize, usize, usize)>)
    requires
        s@ == input@,
        a <= s.len(),
    ensures
        hit(r) == starts_only_at(strs(starts@), crate::ast::regex_model(*reg), no_case, no_trim, s@, a as nat, 0),
        hit_in(r, a as nat, s.len() as nat),
{
    let mut i: usize = 0;
    while i < starts.len()
        invariant
            s@ == input@,
            a <= s.len(),
            i <= starts.len(),
            starts_only_at(strs(starts@), crate::ast::regex_model(*reg), no_case, no_trim, s@, a as nat, i as nat)
                == starts_only_at(strs(starts@), crate::ast::regex_model(*reg), no_case, no_trim, s@, a as nat, 0),
        decreases starts.len() - i,
    {
        let t = chars_of(starts[i].as_str());
        if matches_at_case(s, a, &t, no_case) {
            let body = a + t.len();
            let b = find_word_end(s, body);
            let ca = if no_trim { a } else { body };
            if body < b && accepts(reg, input, ca, b) {
                return Some((ca, b, b));
            }
        }
        i = i + 1;
    }
    None
}

fn match_enclosed(
    starts: &Vec<String>,
    ends: &Vec<String>,
    reg: &Option<RegexFilter>,
    no_case: bool,
    no_trim: bool,
    input: &str,
    s: &Vec<char>,
    a: usize,
) -> (r: Option<(usize, usize, usize)>)
    requires
        s@ == input@,
        a <= s.len(),
    ensures
        hit(r) == enclosed_at(strs(starts@), strs(ends@), crate::ast::regex_model(*reg), no_case, no_trim, s@, a as nat, 0, 0),
        hit_in(r, a as nat, s.len() as nat),
{
    let ghost st = strs(starts@);
    let ghost en = strs(ends@);
    let ghost rm = crate::ast::regex_model(*reg);
    let mut i: usize = 0;
    while i < starts.len()
        invariant
            s@ == input@,
            a <= s.len(),
            i <= starts.len(),
            st == strs(starts@),
            en == strs(ends@),
            rm == crate::ast::regex_model(*reg),
            enclosed_at(st, en, rm, no_case, no_trim, s@, a as nat, i as nat, 0)
                == enclosed_at(st, en, rm, no_case, no_trim, s@, a as nat, 0, 0),
        decreases starts.len() - i,
    {
        let t = chars_of(starts[i].as_str());
        let opened = matches_at_case(s, a, &t, no_case) && t.len() <= s.len() - a;
        let mut j: usize = 0;
        while j < ends.len()
            invariant
                s@ == input@,
                a <= s.len(),
                i < starts.len(),
                j <= ends.len(),
                t@ == st[i as int],
                opened == (starts_at_case(s@, a as nat, st[i as int], no_case) && a + t.len() <= s.len()),
                st == strs(starts@),
                en == strs(ends@),
                rm == crate::ast::regex_model(*reg),
                enclosed_at(st, en, rm, no_case, no_trim, s@, a as nat, i as nat, j as nat)
                    == enclosed_at(st, en, rm, no_case, no_trim, s@, a as nat, 0, 0),
            decreases ends.len() - j,
        {
            if opened {
                let body = a + t.len();
                let e = chars_of(ends[j].as_str());
                proof {
                    lemma_first_occurrence_bounds(s@, body as nat, e@);
                }
                match find_from(s, body, &e) {
                    Some(q) => {
                        let r = q + e.len();
                        let ca = if no_trim { a } else { body };
                        let cb = if no_trim { trim_end_at(s, a, r) } else { q };
                        if accepts(reg, input, ca, cb) {
                            return Some((ca, cb, r));
                        }
                    },
                    None => {},
                }
            }
            j = j + 1;
        }
        i = i + 1;
    }
    None
}

impl Pattern {
    /// Attempts this pattern at `pos`.
    pub fn parse(&self, input: &str, s: &Vec<char>, pos: usize) -> (r: Option<(usize, usize, usize)>)
        requires
            s@ == input@,
            pos <= s.len(),
        ensures
            hit(r) == pattern_at(self@, s@, pos as nat),
            hit_in(r, pos as nat, s.len() as nat),
    {
        match self {
            Pattern::Word { reg } => match_word(reg, input, s, pos),
            Pattern::Eq { any_of, no_case } => {
                let a = skip_multispace(s, pos);
                match_eq(any_of, *no_case, s, a)
            },
            Pattern::Delimited { starts, ends, reg, no_case, no_trim } => {
                let a = skip_whitespace(s, pos);
                if starts.len() == 0 {
                    match_ends_only(ends, reg, input, s, a)
                } else if ends.len() == 0 {
                    match_starts_only(starts, reg, *no_case, *no_trim, input, s, a)
                } else {
                    match_enclosed(starts, ends, reg, *no_case, *no_trim, input, s, a)
                }
            },
        }
    }
}

/// The first of `patterns` that matches at `pos`.
pub fn any_of(patterns: &Vec<Pattern>, input: &str, s: &Vec<char>, pos: usize) -> (r: Option<(usize, usize, usize)>)
    requires
        s@ == input@,
        pos <= s.len(),
    ensures
        hit(r) == first_pattern_at(crate::ast::patterns_model(patterns@), s@, pos as nat, 0),
        hit_in(r, pos as nat, s.len() as nat),
{
    let ghost ps = crate::ast::patterns_model(patterns@);
    let mut i: usize = 0;
    while i < patterns.len()
        invariant
            s@ == input@,
            pos <= s.len(),
            i <= patterns.len(),
            ps == crate::ast::patterns_model(patterns@),
            first_pattern_at(ps, s@, pos as nat, i as nat) == first_pattern_at(ps, s@, pos as nat, 0),
        decreases patterns.len() - i,
    {
        let r = patterns[i].parse(input, s, pos);
        if r.is_some() {
            return r;
        }
        i = i + 1;
    }
    None
}

} // verus!
