//! Compiling a template: filters to typed patterns, and the rule that keeps
//! matching linear.
use vstd::prelude::*;
use crate::args::{fold_entries, Args, ArgsView, EntryView, Match, MatchView};
use crate::ast::{
    captures_model, patterns_model, regex_model, segment_deterministic, segments_model, Capture,
    CaptureModel, Pattern, PatternModel, Segment, SegmentModel,
};
use crate::engine::{entries_ok, run_from, run_segments, Entry, Found, SpanMatch};
use crate::parser::{
    self, command_of, syntax_error_at, CaptureView, FilterView, SegmentView, SyntaxError,
};
use crate::regex_set::{regex_set_compiles, strs, RegexFilter};
use crate::text::{chars_of, same_text};
use vstd::string::StringExecFns;
use vstd::slice::slice_subrange;
use regex::Error as RegexSyntaxError;

verus! {

/// A filter that cannot be compiled.
#[derive(Clone, Debug)]
pub enum FilterError {
    /// A filter that cannot stand beside `eq` was used with it.
    Eq,
    UnknownFilter(String),
    MissingArgs(String),
    Regex(RegexSyntaxError),
}

/// A template that cannot be matched in linear time.
#[derive(Copy, Clone, Eq, PartialEq, Debug, Structural)]
pub enum RuleError {
    /// Two segments next to each other are both non-deterministic.
    NonDeterministicSequence,
}

/// Why a template does not compile.
#[derive(Clone, Debug)]
pub enum Error {
    Syntax(SyntaxError),
    Filter(FilterError),
    Rule(RuleError),
}

/// The model of a [`FilterError`].
pub enum FilterFault {
    Eq,
    UnknownFilter(Seq<char>),
    MissingArgs(Seq<char>),
    Regex,
}

pub open spec fn fault_of(e: FilterError) -> FilterFault {
    match e {
        FilterError::Eq => FilterFault::Eq,
        FilterError::UnknownFilter(n) => FilterFault::UnknownFilter(n@),
        FilterError::MissingArgs(n) => FilterFault::MissingArgs(n@),
        FilterError::Regex(_) => FilterFault::Regex,
    }
}

pub open spec fn nocase_name() -> Seq<char> {
    seq!['n', 'o', 'c', 'a', 's', 'e']
}

pub open spec fn notrim_name() -> Seq<char> {
    seq!['n', 'o', 't', 'r', 'i', 'm']
}

pub open spec fn starts_name() -> Seq<char> {
    seq!['s', 't', 'a', 'r', 't', 's']
}

pub open spec fn ends_name() -> Seq<char> {
    seq!['e', 'n', 'd', 's']
}

pub open spec fn has_filter(fs: Seq<FilterView>, name: Seq<char>) -> bool {
    exists|k: int| 0 <= k < fs.len() && (#[trigger] fs[k]).name == name
}

pub open spec fn is_flag(f: FilterView) -> bool {
    f.name == nocase_name() || f.name == notrim_name()
}

/// The filters other than the flags and `regex`, in order.
pub open spec fn plain_filters(fs: Seq<FilterView>) -> Seq<FilterView> {
    fs.filter(|f: FilterView| !is_flag(f) && f.name != parser::regex_name())
}

/// The arguments of all `regex` filters in order, or `None` if one has none.
pub open spec fn regex_args(fs: Seq<FilterView>) -> Option<Seq<Seq<char>>>
    decreases fs.len(),
{
    if fs.len() == 0 {
        Some(Seq::empty())
    } else {
        match regex_args(fs.drop_last()) {
            None => None,
            Some(acc) => {
                let f = fs.last();
                if is_flag(f) || f.name != parser::regex_name() {
                    Some(acc)
                } else if f.args.len() == 0 {
                    None
                } else {
                    Some(acc + f.args)
                }
            },
        }
    }
}

/// The arguments of the `eq` filters of a pattern whose first filter is `eq`.
pub open spec fn eq_args(fs: Seq<FilterView>) -> Result<Seq<Seq<char>>, FilterFault>
    decreases fs.len(),
{
    if fs.len() == 0 {
        Ok(Seq::empty())
    } else {
        match eq_args(fs.drop_last()) {
            Err(e) => Err(e),
            Ok(acc) => {
                let f = fs.last();
                if f.name == parser::eq_name() {
                    if f.args.len() == 0 {
                        Err(FilterFault::MissingArgs(parser::eq_name()))
                    } else {
                        Ok(acc + f.args)
                    }
                } else if f.name == starts_name() || f.name == ends_name() {
                    Err(FilterFault::Eq)
                } else {
                    Err(FilterFault::UnknownFilter(f.name))
                }
            },
        }
    }
}

/// The arguments of the `starts` and of the `ends` filters of a pattern
/// whose first filter is one of them.
pub open spec fn delimiter_args(fs: Seq<FilterView>) -> Result<(Seq<Seq<char>>, Seq<Seq<char>>), FilterFault>
    decreases fs.len(),
{
    if fs.len() == 0 {
        Ok((Seq::empty(), Seq::empty()))
    } else {
        match delimiter_args(fs.drop_last()) {
            Err(e) => Err(e),
            Ok((st, en)) => {
                let f = fs.last();
                if f.name == starts_name() || f.name == ends_name() {
                    if f.args.len() == 0 {
                        Err(FilterFault::MissingArgs(f.name))
                    } else if f.name == starts_name() {
                        Ok((st + f.args, en))
                    } else {
                        Ok((st, en + f.args))
                    }
                } else if f.name == parser::eq_name() {
                    Err(FilterFault::Eq)
                } else {
                    Err(FilterFault::UnknownFilter(f.name))
                }
            },
        }
    }
}

/// The typed pattern that a list of filters stands for.
///
/// `nocase()` and `notrim()` are flags; the arguments of all `regex()`
/// filters form one regex set; with no other filter the pattern is a word.
/// Otherwise the first remaining filter decides: `eq` gathers the `eq`
/// arguments, `starts`/`ends` gather theirs.
pub open spec fn pattern_of(fs: Seq<FilterView>) -> Result<PatternModel, FilterFault> {
    let no_case = has_filter(fs, nocase_name());
    let no_trim = has_filter(fs, notrim_name());
    let others = plain_filters(fs);
    match regex_args(fs) {
        None => Err(FilterFault::MissingArgs(parser::regex_name())),
        Some(regs) => if regs.len() > 0 && !regex_set_compiles(regs) {
            Err(FilterFault::Regex)
        } else {
            let reg = if regs.len() == 0 { None } else { Some(regs) };
            if others.len() == 0 {
                Ok(PatternModel::Word { reg })
            } else if others[0].name == parser::eq_name() {
                if no_trim || reg is Some {
                    Err(FilterFault::Eq)
                } else {
                    match eq_args(others) {
                        Ok(any_of) => Ok(PatternModel::Eq { any_of, no_case }),
                        Err(e) => Err(e),
                    }
                }
            } else if others[0].name == starts_name() || others[0].name == ends_name() {
                match delimiter_args(others) {
                    Ok((starts, ends)) => Ok(PatternModel::Delimited { starts, ends, reg, no_case, no_trim }),
                    Err(e) => Err(e),
                }
            } else {
                Err(FilterFault::UnknownFilter(others[0].name))
            }
        },
    }
}

pub open spec fn patterns_of(ps: Seq<Seq<FilterView>>) -> Result<Seq<PatternModel>, FilterFault>
    decreases ps.len(),
{
    if ps.len() == 0 {
        Ok(Seq::empty())
    } else {
        match patterns_of(ps.drop_last()) {
            Err(e) => Err(e),
            Ok(acc) => match pattern_of(ps.last()) {
                Err(e) => Err(e),
                Ok(p) => Ok(acc.push(p)),
            },
        }
    }
}

pub open spec fn capture_of(c: CaptureView) -> Result<CaptureModel, FilterFault> {
    match patterns_of(c.patterns) {
        Err(e) => Err(e),
        Ok(patterns) => Ok(CaptureModel { name: c.name, quantifier: c.quantifier, patterns }),
    }
}

pub open spec fn captures_of(cs: Seq<CaptureView>) -> Result<Seq<CaptureModel>, FilterFault>
    decreases cs.len(),
{
    if cs.len() == 0 {
        Ok(Seq::empty())
    } else {
        match captures_of(cs.drop_last()) {
            Err(e) => Err(e),
            Ok(acc) => match capture_of(cs.last()) {
                Err(e) => Err(e),
                Ok(c) => Ok(acc.push(c)),
            },
        }
    }
}

pub open spec fn segment_of(s: SegmentView) -> Result<SegmentModel, FilterFault> {
    match s {
        SegmentView::Text(t) => Ok(SegmentModel::Text(t)),
        SegmentView::Capture(c) => match capture_of(c) {
            Ok(m) => Ok(SegmentModel::Capture(m)),
            Err(e) => Err(e),
        },
        SegmentView::Group(cs) => match captures_of(cs) {
            Ok(ms) => Ok(SegmentModel::Group(ms)),
            Err(e) => Err(e),
        },
        SegmentView::PriorityGroup(cs) => match captures_of(cs) {
            Ok(ms) => Ok(SegmentModel::PriorityGroup(ms)),
            Err(e) => Err(e),
        },
    }
}

pub open spec fn segments_of(ss: Seq<SegmentView>) -> Result<Seq<SegmentModel>, FilterFault>
    decreases ss.len(),
{
    if ss.len() == 0 {
        Ok(Seq::empty())
    } else {
        match segments_of(ss.drop_last()) {
            Err(e) => Err(e),
            Ok(acc) => match segment_of(ss.last()) {
                Err(e) => Err(e),
                Ok(m) => Ok(acc.push(m)),
            },
        }
    }
}

/// Two neighbouring segments are both non-deterministic.
pub open spec fn has_nondeterministic_pair(segs: Seq<SegmentModel>) -> bool {
    exists|k: int| 0 <= k && k + 1 < segs.len() && !segment_deterministic(#[trigger] segs[k]) && !segment_deterministic(segs[k + 1])
}

/// A compiled command: its segments in order.
#[derive(Clone, Debug)]
pub struct Command {
    segments: Vec<Segment>,
}

impl View for Command {
    type V = Seq<SegmentModel>;

    closed spec fn view(&self) -> Seq<SegmentModel> {
        segments_model(self.segments@)
    }
}

fn is_named(f: &parser::Filter, name: &str) -> (r: bool)
    ensures
        r == (f@.name == name@),
{
    same_text(f.name.as_str(), name)
}

fn clone_strings(v: &Vec<String>) -> (r: Vec<String>)
    ensures
        strs(r@) == strs(v@),
{
    let mut r: Vec<String> = Vec::new();
    let mut k: usize = 0;
    while k < v.len()
        invariant
            k <= v.len(),
            strs(r@) == strs(v@).take(k as int),
        decreases v.len() - k,
    {
        let ghost before = r@;
        r.push(v[k].clone());
        assert(strs(r@) =~= strs(before).push(v@[k as int]@));
        assert(strs(v@).take(k + 1) =~= strs(v@).take(k as int).push(v@[k as int]@));
        k = k + 1;
    }
    assert(strs(v@).take(v.len() as int) =~= strs(v@));
    r
}

fn extend_strings(dst: &mut Vec<String>, src: &Vec<String>)
    ensures
        strs(final(dst)@) == strs(old(dst)@) + strs(src@),
{
    let mut more = clone_strings(src);
    let ghost d = dst@;
    let ghost m = more@;
    dst.append(&mut more);
    assert(strs(dst@) =~= strs(d) + strs(m));
}

/// The pattern a list of filters stands for; see [`pattern_of`].
pub fn compile_pattern(p: &parser::Pattern) -> (r: Result<Pattern, FilterError>)
    ensures
        match r {
            Ok(pat) => pattern_of(p@) == Ok::<PatternModel, FilterFault>(pat@),
            Err(e) => pattern_of(p@) == Err::<PatternModel, FilterFault>(fault_of(e)),
        },
{
    let fs = &p.0;
    let ghost fv = p@;
    let ghost pred = |f: FilterView| !is_flag(f) && f.name != parser::regex_name();
    proof {
        reveal_strlit("nocase");
        reveal_strlit("notrim");
        reveal_strlit("regex");
        reveal_strlit("eq");
        reveal_strlit("starts");
        reveal_strlit("ends");
        assert("nocase"@ =~= nocase_name());
        assert("notrim"@ =~= notrim_name());
        assert("regex"@ =~= parser::regex_name());
        assert("eq"@ =~= parser::eq_name());
        assert("starts"@ =~= starts_name());
        assert("ends"@ =~= ends_name());
    }
    let mut no_case = false;
    let mut no_trim = false;
    let mut regs: Vec<String> = Vec::new();
    let mut first: Option<usize> = None;
    let mut k: usize = 0;
    assert(fv.take(0) =~= Seq::<FilterView>::empty());
    assert(strs(regs@) =~= Seq::<Seq<char>>::empty());
    while k < fs.len()
        invariant
            fv == p@,
            fv == parser::filters_view(fs@),
            "nocase"@ == nocase_name(),
            "notrim"@ == notrim_name(),
            "regex"@ == parser::regex_name(),
            k <= fs.len(),
            no_case == has_filter(fv.take(k as int), nocase_name()),
            no_trim == has_filter(fv.take(k as int), notrim_name()),
            regex_args(fv.take(k as int)) == Some(strs(regs@)),
            match first {
                Some(j) => j < k && plain_filters(fv.take(k as int)).len() > 0 && plain_filters(fv.take(k as int))[0] == fv[j as int],
                None => plain_filters(fv.take(k as int)).len() == 0,
            },
        decreases fs.len() - k,
    {
        let f = &fs[k];
        let ghost tk = fv.take(k as int);
        assert(fv.take(k + 1) =~= tk.push(fv[k as int]));
        assert(fv.take(k + 1).drop_last() =~= tk);
        proof {
            tk.lemma_filter_push(fv[k as int], |f: FilterView| !is_flag(f) && f.name != parser::regex_name());
            assert(has_filter(fv.take(k + 1), nocase_name()) == (has_filter(tk, nocase_name()) || fv[k as int].name == nocase_name())) by {
                if has_filter(tk, nocase_name()) {
                    let w = choose|w: int| 0 <= w < tk.len() && (#[trigger] tk[w]).name == nocase_name();
                    assert(fv.take(k + 1)[w] == tk[w]);
                }
                if has_filter(fv.take(k + 1), nocase_name()) && fv[k as int].name != nocase_name() {
                    let w = choose|w: int| 0 <= w < k + 1 && (#[trigger] fv.take(k + 1)[w]).name == nocase_name();
                    assert(tk[w] == fv.take(k + 1)[w]);
                }
                if fv[k as int].name == nocase_name() {
                    assert(fv.take(k + 1)[k as int] == fv[k as int]);
                }
            }
            assert(has_filter(fv.take(k + 1), notrim_name()) == (has_filter(tk, notrim_name()) || fv[k as int].name == notrim_name())) by {
                if has_filter(tk, notrim_name()) {
                    let w = choose|w: int| 0 <= w < tk.len() && (#[trigger] tk[w]).name == notrim_name();
                    assert(fv.take(k + 1)[w] == tk[w]);
                }
                if has_filter(fv.take(k + 1), notrim_name()) && fv[k as int].name != notrim_name() {
                    let w = choose|w: int| 0 <= w < k + 1 && (#[trigger] fv.take(k + 1)[w]).name == notrim_name();
                    assert(tk[w] == fv.take(k + 1)[w]);
                }
                if fv[k as int].name == notrim_name() {
                    assert(fv.take(k + 1)[k as int] == fv[k as int]);
                }
            }
        }
        let flag_case = is_named(f, "nocase");
        let flag_trim = is_named(f, "notrim");
        if flag_case {
            no_case = true;
        }
        if flag_trim {
            no_trim = true;
        }
        if !flag_case && !flag_trim {
            if is_named(f, "regex") {
                if f.args.len() == 0 {
                    proof {
                        lemma_regex_args_none(fv, k + 1);
                    }
                    let name = String::from_str("regex");
                    return Err(FilterError::MissingArgs(name));
                }
                extend_strings(&mut regs, &f.args);
            } else if first.is_none() {
                first = Some(k);
            }
        }
        k = k + 1;
    }
    assert(fv.take(fs.len() as int) =~= fv);
    let others_len_zero = first.is_none();
    let reg = if regs.len() == 0 {
        None
    } else {
        match RegexFilter::compile(clone_strings(&regs)) {
            Ok(f) => Some(f),
            Err(e) => {
                return Err(FilterError::Regex(e));
            },
        }
    };
    assert(regex_model(reg) == if regs@.len() == 0 { None } else { Some(strs(regs@)) });
    match first {
        None => Ok(Pattern::Word { reg }),
        Some(j) => {
            if is_named(&fs[j], "eq") {
                if no_trim || reg.is_some() {
                    return Err(FilterError::Eq);
                }
                scan_eq(fs, no_case)
            } else if is_named(&fs[j], "starts") || is_named(&fs[j], "ends") {
                scan_delimiters(fs, reg, no_case, no_trim)
            } else {
                Err(FilterError::UnknownFilter(fs[j].name.clone()))
            }
        },
    }
}

proof fn lemma_plain_step(fv: Seq<FilterView>, k: int)
    requires
        0 <= k < fv.len(),
    ensures
        plain_filters(fv.take(k + 1)) == if !is_flag(fv[k]) && fv[k].name != parser::regex_name() {
            plain_filters(fv.take(k)).push(fv[k])
        } else {
            plain_filters(fv.take(k))
        },
{
    assert(fv.take(k + 1) =~= fv.take(k).push(fv[k]));
    fv.take(k).lemma_filter_push(fv[k], |f: FilterView| !is_flag(f) && f.name != parser::regex_name());
}

proof fn lemma_eq_args_err(fv: Seq<FilterView>, k: int, e: FilterFault)
    requires
        0 <= k <= fv.len(),
        eq_args(plain_filters(fv.take(k))) == Err::<Seq<Seq<char>>, FilterFault>(e),
    ensures
        eq_args(plain_filters(fv)) == Err::<Seq<Seq<char>>, FilterFault>(e),
    decreases fv.len() - k,
{
    if k < fv.len() {
        lemma_plain_step(fv, k);
        assert(plain_filters(fv.take(k)).push(fv[k]).drop_last() =~= plain_filters(fv.take(k)));
        lemma_eq_args_err(fv, k + 1, e);
    } else {
        assert(fv.take(k) =~= fv);
    }
}

proof fn lemma_delimiter_args_err(fv: Seq<FilterView>, k: int, e: FilterFault)
    requires
        0 <= k <= fv.len(),
        delimiter_args(plain_filters(fv.take(k))) == Err::<(Seq<Seq<char>>, Seq<Seq<char>>), FilterFault>(e),
    ensures
        delimiter_args(plain_filters(fv)) == Err::<(Seq<Seq<char>>, Seq<Seq<char>>), FilterFault>(e),
    decreases fv.len() - k,
{
    if k < fv.len() {
        lemma_plain_step(fv, k);
        assert(plain_filters(fv.take(k)).push(fv[k]).drop_last() =~= plain_filters(fv.take(k)));
        lemma_delimiter_args_err(fv, k + 1, e);
    } else {
        assert(fv.take(k) =~= fv);
    }
}

proof fn lemma_regex_args_none(fv: Seq<FilterView>, k: int)
    requires
        0 <= k <= fv.len(),
        regex_args(fv.take(k)) is None,
    ensures
        regex_args(fv) is None,
    decreases fv.len() - k,
{
    if k < fv.len() {
        assert(fv.take(k + 1).drop_last() =~= fv.take(k));
        lemma_regex_args_none(fv, k + 1);
    } else {
        assert(fv.take(k) =~= fv);
    }
}

proof fn names_revealed()
    ensures
        "nocase"@ == nocase_name(),
        "notrim"@ == notrim_name(),
        "regex"@ == parser::regex_name(),
        "eq"@ == parser::eq_name(),
        "starts"@ == starts_name(),
        "ends"@ == ends_name(),
{
    reveal_strlit("nocase");
    reveal_strlit("notrim");
    reveal_strlit("regex");
    reveal_strlit("eq");
    reveal_strlit("starts");
    reveal_strlit("ends");
    assert("nocase"@ =~= nocase_name());
    assert("notrim"@ =~= notrim_name());
    assert("regex"@ =~= parser::regex_name());
    assert("eq"@ =~= parser::eq_name());
    assert("starts"@ =~= starts_name());
    assert("ends"@ =~= ends_name());
}

/// Gathers the arguments of a pattern whose first plain filter is `eq`.
fn scan_eq(fs: &Vec<parser::Filter>, no_case: bool) -> (r: Result<Pattern, FilterError>)
    ensures
        match r {
            Ok(pat) => eq_args(plain_filters(parser::filters_view(fs@))) matches Ok(any_of) && pat@ == (PatternModel::Eq { any_of, no_case }),
            Err(e) => eq_args(plain_filters(parser::filters_view(fs@))) == Err::<Seq<Seq<char>>, FilterFault>(fault_of(e)),
        },
{
    proof {
        names_revealed();
    }
    let ghost fv = parser::filters_view(fs@);
    let mut any_of: Vec<String> = Vec::new();
    let mut k: usize = 0;
    assert(fv.take(0) =~= Seq::<FilterView>::empty());
    assert(strs(any_of@) =~= Seq::<Seq<char>>::empty());
    while k < fs.len()
        invariant
            fv == parser::filters_view(fs@),
            "nocase"@ == nocase_name(),
            "notrim"@ == notrim_name(),
            "regex"@ == parser::regex_name(),
            "eq"@ == parser::eq_name(),
            "starts"@ == starts_name(),
            "ends"@ == ends_name(),
            k <= fs.len(),
            eq_args(plain_filters(fv.take(k as int))) == Ok::<Seq<Seq<char>>, FilterFault>(strs(any_of@)),
        decreases fs.len() - k,
    {
        let f = &fs[k];
        proof {
            lemma_plain_step(fv, k as int);
            assert(plain_filters(fv.take(k as int)).push(fv[k as int]).drop_last() =~= plain_filters(fv.take(k as int)));
        }
        if !is_named(f, "nocase") && !is_named(f, "notrim") && !is_named(f, "regex") {
            if is_named(f, "eq") {
                if f.args.len() == 0 {
                    proof {
                        lemma_eq_args_err(fv, k + 1, FilterFault::MissingArgs(parser::eq_name()));
                    }
                    return Err(FilterError::MissingArgs(String::from_str("eq")));
                }
                extend_strings(&mut any_of, &f.args);
            } else if is_named(f, "starts") || is_named(f, "ends") {
                proof {
                    lemma_eq_args_err(fv, k + 1, FilterFault::Eq);
                }
                return Err(FilterError::Eq);
            } else {
                proof {
                    lemma_eq_args_err(fv, k + 1, FilterFault::UnknownFilter(fv[k as int].name));
                }
                return Err(FilterError::UnknownFilter(f.name.clone()));
            }
        }
        k = k + 1;
    }
    assert(fv.take(fs.len() as int) =~= fv);
    Ok(Pattern::Eq { any_of, no_case })
}

/// Gathers the arguments of a pattern whose first plain filter is `starts`
/// or `ends`.
fn scan_delimiters(fs: &Vec<parser::Filter>, reg: Option<RegexFilter>, no_case: bool, no_trim: bool) -> (r: Result<Pattern, FilterError>)
    ensures
        match r {
            Ok(pat) => delimiter_args(plain_filters(parser::filters_view(fs@))) matches Ok((starts, ends))
                && pat@ == (PatternModel::Delimited { starts, ends, reg: regex_model(reg), no_case, no_trim }),
            Err(e) => delimiter_args(plain_filters(parser::filters_view(fs@))) == Err::<(Seq<Seq<char>>, Seq<Seq<char>>), FilterFault>(fault_of(e)),
        },
{
    proof {
        names_revealed();
    }
    let ghost fv = parser::filters_view(fs@);
    let mut starts: Vec<String> = Vec::new();
    let mut ends: Vec<String> = Vec::new();
    let mut k: usize = 0;
    assert(fv.take(0) =~= Seq::<FilterView>::empty());
    assert(strs(starts@) =~= Seq::<Seq<char>>::empty());
    assert(strs(ends@) =~= Seq::<Seq<char>>::empty());
    while k < fs.len()
        invariant
            fv == parser::filters_view(fs@),
            "nocase"@ == nocase_name(),
            "notrim"@ == notrim_name(),
            "regex"@ == parser::regex_name(),
            "eq"@ == parser::eq_name(),
            "starts"@ == starts_name(),
            "ends"@ == ends_name(),
            k <= fs.len(),
            delimiter_args(plain_filters(fv.take(k as int))) == Ok::<(Seq<Seq<char>>, Seq<Seq<char>>), FilterFault>((strs(starts@), strs(ends@))),
        decreases fs.len() - k,
    {
        let f = &fs[k];
        proof {
            lemma_plain_step(fv, k as int);
            assert(plain_filters(fv.take(k as int)).push(fv[k as int]).drop_last() =~= plain_filters(fv.take(k as int)));
        }
        if !is_named(f, "nocase") && !is_named(f, "notrim") && !is_named(f, "regex") {
            let is_starts = is_named(f, "starts");
            if is_starts || is_named(f, "ends") {
                if f.args.len() == 0 {
                    proof {
                        lemma_delimiter_args_err(fv, k + 1, FilterFault::MissingArgs(fv[k as int].name));
                    }
                    return Err(FilterError::MissingArgs(f.name.clone()));
                }
                if is_starts {
                    extend_strings(&mut starts, &f.args);
                } else {
                    extend_strings(&mut ends, &f.args);
                }
            } else if is_named(f, "eq") {
                proof {
                    lemma_delimiter_args_err(fv, k + 1, FilterFault::Eq);
                }
                return Err(FilterError::Eq);
            } else {
                proof {
                    lemma_delimiter_args_err(fv, k + 1, FilterFault::UnknownFilter(fv[k as int].name));
                }
                return Err(FilterError::UnknownFilter(f.name.clone()));
            }
        }
        k = k + 1;
    }
    assert(fv.take(fs.len() as int) =~= fv);
    Ok(Pattern::Delimited { starts, ends, reg, no_case, no_trim })
}

fn compile_capture(c: &parser::Capture) -> (r: Result<Capture, FilterError>)
    ensures
        match r {
            Ok(m) => capture_of(c@) == Ok::<CaptureModel, FilterFault>(m@),
            Err(e) => capture_of(c@) == Err::<CaptureModel, FilterFault>(fault_of(e)),
        },
{
    let ghost pv = parser::patterns_view(c.patterns@);
    let mut patterns: Vec<Pattern> = Vec::new();
    let mut k: usize = 0;
    assert(pv.take(0) =~= Seq::<Seq<FilterView>>::empty());
    assert(patterns_model(patterns@) =~= Seq::<PatternModel>::empty());
    while k < c.patterns.len()
        invariant
            pv == parser::patterns_view(c.patterns@),
            k <= c.patterns.len(),
            patterns_of(pv.take(k as int)) == Ok::<Seq<PatternModel>, FilterFault>(patterns_model(patterns@)),
        decreases c.patterns.len() - k,
    {
        assert(pv.take(k + 1).drop_last() =~= pv.take(k as int));
        assert(pv.take(k + 1).last() == c.patterns@[k as int]@);
        match compile_pattern(&c.patterns[k]) {
            Ok(pat) => {
                let ghost before = patterns@;
                let ghost pm = pat@;
                patterns.push(pat);
                assert(patterns_model(patterns@) =~= patterns_model(before).push(pm));
            },
            Err(e) => {
                proof {
                    lemma_patterns_err(pv, k + 1, fault_of(e));
                }
                return Err(e);
            },
        }
        k = k + 1;
    }
    assert(pv.take(c.patterns.len() as int) =~= pv);
    Ok(Capture { name: c.name.clone(), quantifier: c.quantifier, patterns })
}

proof fn lemma_patterns_err(pv: Seq<Seq<FilterView>>, k: int, e: FilterFault)
    requires
        0 <= k <= pv.len(),
        patterns_of(pv.take(k)) == Err::<Seq<PatternModel>, FilterFault>(e),
    ensures
        patterns_of(pv) == Err::<Seq<PatternModel>, FilterFault>(e),
    decreases pv.len() - k,
{
    if k < pv.len() {
        assert(pv.take(k + 1).drop_last() =~= pv.take(k));
        lemma_patterns_err(pv, k + 1, e);
    } else {
        assert(pv.take(k) =~= pv);
    }
}

proof fn lemma_captures_err(cv: Seq<CaptureView>, k: int, e: FilterFault)
    requires
        0 <= k <= cv.len(),
        captures_of(cv.take(k)) == Err::<Seq<CaptureModel>, FilterFault>(e),
    ensures
        captures_of(cv) == Err::<Seq<CaptureModel>, FilterFault>(e),
    decreases cv.len() - k,
{
    if k < cv.len() {
        assert(cv.take(k + 1).drop_last() =~= cv.take(k));
        lemma_captures_err(cv, k + 1, e);
    } else {
        assert(cv.take(k) =~= cv);
    }
}

proof fn lemma_segments_err(sv: Seq<SegmentView>, k: int, e: FilterFault)
    requires
        0 <= k <= sv.len(),
        segments_of(sv.take(k)) == Err::<Seq<SegmentModel>, FilterFault>(e),
    ensures
        segments_of(sv) == Err::<Seq<SegmentModel>, FilterFault>(e),
    decreases sv.len() - k,
{
    if k < sv.len() {
        assert(sv.take(k + 1).drop_last() =~= sv.take(k));
        lemma_segments_err(sv, k + 1, e);
    } else {
        assert(sv.take(k) =~= sv);
    }
}

fn compile_captures(cs: &Vec<parser::Capture>) -> (r: Result<Vec<Capture>, FilterError>)
    ensures
        match r {
            Ok(ms) => captures_of(parser::captures_view(cs@)) == Ok::<Seq<CaptureModel>, FilterFault>(captures_model(ms@)),
            Err(e) => captures_of(parser::captures_view(cs@)) == Err::<Seq<CaptureModel>, FilterFault>(fault_of(e)),
        },
{
    let ghost cv = parser::captures_view(cs@);
    let mut out: Vec<Capture> = Vec::new();
    let mut k: usize = 0;
    assert(cv.take(0) =~= Seq::<CaptureView>::empty());
    assert(captures_model(out@) =~= Seq::<CaptureModel>::empty());
    while k < cs.len()
        invariant
            cv == parser::captures_view(cs@),
            k <= cs.len(),
            captures_of(cv.take(k as int)) == Ok::<Seq<CaptureModel>, FilterFault>(captures_model(out@)),
        decreases cs.len() - k,
    {
        assert(cv.take(k + 1).drop_last() =~= cv.take(k as int));
        assert(cv.take(k + 1).last() == cs@[k as int]@);
        match compile_capture(&cs[k]) {
            Ok(m) => {
                let ghost before = out@;
                let ghost mm = m@;
                out.push(m);
                assert(captures_model(out@) =~= captures_model(before).push(mm));
            },
            Err(e) => {
                proof {
                    lemma_captures_err(cv, k + 1, fault_of(e));
                }
                return Err(e);
            },
        }
        k = k + 1;
    }
    assert(cv.take(cs.len() as int) =~= cv);
    Ok(out)
}

fn compile_segment(s: &parser::Segment) -> (r: Result<Segment, FilterError>)
    ensures
        match r {
            Ok(m) => segment_of(s@) == Ok::<SegmentModel, FilterFault>(m@),
            Err(e) => segment_of(s@) == Err::<SegmentModel, FilterFault>(fault_of(e)),
        },
{
    match s {
        parser::Segment::Text(t) => Ok(Segment::Text(t.clone())),
        parser::Segment::Capture(c) => match compile_capture(c) {
            Ok(m) => Ok(Segment::Capture(m)),
            Err(e) => Err(e),
        },
        parser::Segment::Group(cs) => match compile_captures(cs) {
            Ok(ms) => Ok(Segment::Group(ms)),
            Err(e) => Err(e),
        },
        parser::Segment::PriorityGroup(cs) => match compile_captures(cs) {
            Ok(ms) => Ok(Segment::PriorityGroup(ms)),
            Err(e) => Err(e),
        },
    }
}

fn compile_segments(ss: &Vec<parser::Segment>) -> (r: Result<Vec<Segment>, FilterError>)
    ensures
        match r {
            Ok(ms) => segments_of(parser::segments_view(ss@)) == Ok::<Seq<SegmentModel>, FilterFault>(segments_model(ms@)),
            Err(e) => segments_of(parser::segments_view(ss@)) == Err::<Seq<SegmentModel>, FilterFault>(fault_of(e)),
        },
{
    let ghost sv = parser::segments_view(ss@);
    let mut out: Vec<Segment> = Vec::new();
    let mut k: usize = 0;
    assert(sv.take(0) =~= Seq::<SegmentView>::empty());
    assert(segments_model(out@) =~= Seq::<SegmentModel>::empty());
    while k < ss.len()
        invariant
            sv == parser::segments_view(ss@),
            k <= ss.len(),
            segments_of(sv.take(k as int)) == Ok::<Seq<SegmentModel>, FilterFault>(segments_model(out@)),
        decreases ss.len() - k,
    {
        assert(sv.take(k + 1).drop_last() =~= sv.take(k as int));
        assert(sv.take(k + 1).last() == ss@[k as int]@);
        match compile_segment(&ss[k]) {
            Ok(m) => {
                let ghost before = out@;
                let ghost mm = m@;
                out.push(m);
                assert(segments_model(out@) =~= segments_model(before).push(mm));
            },
            Err(e) => {
                proof {
                    lemma_segments_err(sv, k + 1, fault_of(e));
                }
                return Err(e);
            },
        }
        k = k + 1;
    }
    assert(sv.take(ss.len() as int) =~= sv);
    Ok(out)
}

/// The outcome of compiling a template, as the model sees it.
pub enum Compiled {
    Commands(Seq<SegmentModel>),
    Syntax(nat, char),
    Filter(FilterFault),
    Rule,
}

/// What compiling the template `s` gives: parse, compile each pattern in
/// order (the first failure wins), then check the determinism rule.
pub open spec fn compiled(s: Seq<char>) -> Compiled {
    match command_of(s) {
        Err((x, d)) => Compiled::Syntax(x, d),
        Ok(sv) => match segments_of(sv) {
            Err(e) => Compiled::Filter(e),
            Ok(segs) => if has_nondeterministic_pair(segs) {
                Compiled::Rule
            } else {
                Compiled::Commands(segs)
            },
        },
    }
}

/// A span of the input as text.
pub open spec fn span_text(s: Seq<char>, sp: (nat, nat)) -> Seq<char> {
    s.subrange(sp.0 as int, sp.1 as int)
}

pub open spec fn match_view(s: Seq<char>, m: SpanMatch) -> MatchView {
    match m {
        SpanMatch::Once(sp) => MatchView::Once(span_text(s, sp)),
        SpanMatch::Many(v) => MatchView::Many(v.map_values(|sp: (nat, nat)| span_text(s, sp))),
    }
}

pub open spec fn entry_texts(s: Seq<char>, es: Seq<Entry>) -> Seq<EntryView> {
    es.map_values(|e: Entry| (e.0, match_view(s, e.1)))
}

/// Matching segments against the input from its start: where the rest
/// begins and the entries in the order they were matched. A command with
/// no segments matches nothing.
pub open spec fn match_positions(segs: Seq<SegmentModel>, s: Seq<char>) -> Option<(nat, Seq<Entry>)> {
    if segs.len() == 0 {
        None
    } else {
        run_from(segs, 0, s, 0)
    }
}

/// What matching `segs` against `s` yields: the unmatched rest, and each
/// capture name with its last match.
pub open spec fn matched(segs: Seq<SegmentModel>, s: Seq<char>) -> Option<ArgsView> {
    match match_positions(segs, s) {
        Some((p, es)) => Some(ArgsView { rest: s.skip(p as int), captures: fold_entries(entry_texts(s, es)) }),
        None => None,
    }
}

fn to_match<'t>(input: &'t str, f: Found) -> (r: Match<'t>)
    requires
        crate::engine::found_ok(f@, input@.len()),
    ensures
        r@ == match_view(input@, f@),
{
    match f {
        Found::Once(a, b) => Match::Once(input.substring_char(a, b)),
        Found::Many(v) => {
            let mut out: Vec<&'t str> = Vec::new();
            let mut k: usize = 0;
            while k < v.len()
                invariant
                    k <= v.len(),
                    forall|q: int| 0 <= q < v@.len() ==> crate::engine::span_ok(#[trigger] crate::engine::spans_of(v@)[q], input@.len()),
                    crate::args::str_views(out@) == crate::engine::spans_of(v@).take(k as int).map_values(|sp: (nat, nat)| span_text(input@, sp)),
                decreases v.len() - k,
            {
                let (a, b) = v[k];
                assert(crate::engine::spans_of(v@)[k as int] == (a as nat, b as nat));
                let ghost before = out@;
                let piece = input.substring_char(a, b);
                out.push(piece);
                assert(crate::args::str_views(out@) =~= crate::args::str_views(before).push(piece@));
                assert(crate::engine::spans_of(v@).take(k + 1) =~= crate::engine::spans_of(v@).take(k as int).push((a as nat, b as nat)));
                assert(crate::args::str_views(out@) =~= crate::engine::spans_of(v@).take(k + 1).map_values(|sp: (nat, nat)| span_text(input@, sp)));
                k = k + 1;
            }
            assert(crate::engine::spans_of(v@).take(v.len() as int) =~= crate::engine::spans_of(v@));
            Match::Many(out)
        },
    }
}

impl Command {
    /// Compiles a command template.
    pub fn new(s: &str) -> (r: Result<Command, Error>)
        ensures
            match r {
                Ok(c) => compiled(s@) == Compiled::Commands(c@),
                Err(Error::Syntax(e)) => compiled(s@) matches Compiled::Syntax(x, d) && syntax_error_at(e, s@, x, d),
                Err(Error::Filter(e)) => compiled(s@) == Compiled::Filter(fault_of(e)),
                Err(Error::Rule(e)) => compiled(s@) == Compiled::Rule && e == RuleError::NonDeterministicSequence,
            },
    {
        let parsed = match parser::parse_command(s) {
            Ok(v) => v,
            Err(e) => {
                return Err(Error::Syntax(e));
            },
        };
        let segments = match compile_segments(&parsed) {
            Ok(v) => v,
            Err(e) => {
                return Err(Error::Filter(e));
            },
        };
        let ghost segs = segments_model(segments@);
        let mut k: usize = 0;
        while segments.len() > 0 && k < segments.len() - 1
            invariant
                segs == segments_model(segments@),
                command_of(s@) == Ok::<Seq<SegmentView>, (nat, char)>(parser::segments_view(parsed@)),
                segments_of(parser::segments_view(parsed@)) == Ok::<Seq<SegmentModel>, FilterFault>(segs),
                k <= segments.len(),
                forall|j: int| 0 <= j < k && j + 1 < segs.len() ==> !(!segment_deterministic(#[trigger] segs[j]) && !segment_deterministic(segs[j + 1])),
            decreases segments.len() - k,
        {
            if !segments[k].is_deterministic() && !segments[k + 1].is_deterministic() {
                assert(segs[k as int] == segments@[k as int]@);
                assert(segs[k + 1] == segments@[k + 1]@);
                assert(!segment_deterministic(segs[k as int]) && !segment_deterministic(segs[k + 1]));
                assert(has_nondeterministic_pair(segs));
                return Err(Error::Rule(RuleError::NonDeterministicSequence));
            }
            k = k + 1;
        }
        assert(!has_nondeterministic_pair(segs)) by {
            assert forall|j: int| 0 <= j && j + 1 < segs.len() implies !(!segment_deterministic(#[trigger] segs[j]) && !segment_deterministic(segs[j + 1])) by {
                assert(j < k);
            }
        }
        let c = Command { segments };
        assert(c@ == segs);
        assert(compiled(s@) == Compiled::Commands(segs));
        Ok(c)
    }

    /// The segments of this command, in order.
    pub fn segments(&self) -> (r: &[Segment])
        ensures
            segments_model(r@) == self@,
    {
        self.segments.as_slice()
    }

    /// Matches this command against `input`.
    pub fn get_matches<'t>(&self, input: &'t str) -> (r: Option<Args<'t>>)
        ensures
            match r {
                Some(a) => matched(self@, input@) == Some(a@),
                None => matched(self@, input@) is None,
            },
    {
        if self.segments.len() == 0 {
            return None;
        }
        let s = chars_of(input);
        match run_segments(self.segments.as_slice(), 0, input, &s, 0) {
            None => None,
            Some((p, entries)) => {
                let ghost es = crate::engine::entries_of(entries@);
                let mut vals: Vec<(String, Match<'t>)> = Vec::new();
                let mut entries = entries;
                let n = entries.len();
                let mut k: usize = 0;
                while entries.len() > 0
                    invariant
                        s@ == input@,
                        k + entries.len() == n,
                        n == es.len(),
                        crate::engine::entries_of(entries@) == es.skip(k as int),
                        entries_ok(es, input@.len()),
                        crate::args::entry_views(vals@) == entry_texts(input@, es.take(k as int)),
                    decreases entries.len(),
                {
                    let ghost old_entries = entries@;
                    let (name, f) = entries.remove(0);
                    assert(crate::engine::entries_of(old_entries)[0] == es[k as int]);
                    assert((name@, f@) == es[k as int]);
                    assert(crate::engine::found_ok(es[k as int].1, input@.len()));
                    let m = to_match(input, f);
                    let ghost before = vals@;
                    let ghost nm = name@;
                    let ghost mv = m@;
                    vals.push((name, m));
                    assert(crate::args::entry_views(vals@) =~= crate::args::entry_views(before).push((nm, mv)));
                    assert(es.take(k + 1) =~= es.take(k as int).push(es[k as int]));
                    assert(entry_texts(input@, es.take(k + 1)) =~= entry_texts(input@, es.take(k as int)).push((nm, mv)));
                    assert(entries@ =~= old_entries.skip(1));
                    assert(crate::engine::entries_of(entries@) =~= crate::engine::entries_of(old_entries).skip(1));
                    assert(crate::engine::entries_of(entries@) =~= es.skip(k + 1));
                    k = k + 1;
                }
                assert(es.take(n as int) =~= es);
                let len = s.len();
                let rest = input.substring_char(p, len);
                assert(rest@ =~= input@.skip(p as int));
                Some(Args::from_entries(rest, vals))
            },
        }
    }

    /// Whether the first segment alone matches `input`: a cheap test of
    /// whether the input is meant for this command.
    pub fn has_prefix(&self, input: &str) -> (r: bool)
        ensures
            r == (self@.len() > 0 && match_positions(self@.take(1), input@) is Some),
    {
        if self.segments.len() == 0 {
            return false;
        }
        let s = chars_of(input);
        let first = slice_subrange(self.segments.as_slice(), 0, 1);
        assert(segments_model(first@) =~= self@.take(1));
        run_segments(first, 0, input, &s, 0).is_some()
    }
}

/// Relies on the `Display` of `regex::Error`: a description of why the
/// regex did not compile.
#[verifier::external_body]
fn regex_error_text(e: &RegexSyntaxError) -> String {
    e.to_string()
}

impl RuleError {
    pub fn message(&self) -> (r: &'static str)
        ensures
            r == "command contains two non-deterministic captures next to each other",
    {
        "command contains two non-deterministic captures next to each other"
    }
}

/// The message of a filter error other than a regex's own.
pub open spec fn filter_message(e: FilterError) -> Seq<char> {
    match e {
        FilterError::Eq => "the `eq` filter can only be used along `nocase`"@,
        FilterError::UnknownFilter(n) => "unknown filter `"@ + n@ + "`"@,
        FilterError::MissingArgs(n) => "`"@ + n@ + "` takes at least 1 argument; 0 given"@,
        FilterError::Regex(_) => Seq::empty(),
    }
}

impl FilterError {
    /// The message of this error; for a regex, the `regex` crate's description.
    pub fn message(&self) -> (r: String)
        ensures
            !(self is Regex) ==> r@ == filter_message(*self),
    {
        match self {
            FilterError::Eq => String::from_str("the `eq` filter can only be used along `nocase`"),
            FilterError::UnknownFilter(n) => {
                let mut r = String::from_str("unknown filter `");
                r.append(n.as_str());
                r.append("`");
                r
            },
            FilterError::MissingArgs(n) => {
                let mut r = String::from_str("`");
                r.append(n.as_str());
                r.append("` takes at least 1 argument; 0 given");
                r
            },
            FilterError::Regex(e) => regex_error_text(e),
        }
    }
}

impl Error {
    /// The message of the underlying error.
    pub fn message(&self) -> (r: String)
        ensures
            match self {
                Error::Syntax(e) => r@ == parser::syntax_message(*e),
                Error::Rule(_) => r@ == "command contains two non-deterministic captures next to each other"@,
                Error::Filter(e) => !(e is Regex) ==> r@ == filter_message(*e),
            },
    {
        match self {
            Error::Syntax(e) => e.message(),
            Error::Filter(e) => e.message(),
            Error::Rule(e) => String::from_str(e.message()),
        }
    }
}

} // verus!
