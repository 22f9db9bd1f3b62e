//! The compiled form of a command template, and its mathematical model.
use vstd::prelude::*;
use crate::regex_set::{strs, RegexFilter};

verus! {

/// How many times a capture may match: none of `?`, `*`, `+`; `?`; `*`; `+`.
#[derive(Copy, Clone, Eq, PartialEq, Debug, Structural)]
pub enum Quantifier {
    Once,
    MaybeOnce,
    Many0,
    Many1,
}

/// One rule a capture may match by.
#[derive(Clone, Debug)]
pub enum Pattern {
    /// The `eq()` filter: the first of `any_of` that the input starts with.
    Eq { any_of: Vec<String>, no_case: bool },
    /// At least one of `starts()` and `ends()`.
    /// `no_case` does not affect the regex.
    Delimited {
        starts: Vec<String>,
        ends: Vec<String>,
        reg: Option<RegexFilter>,
        no_case: bool,
        no_trim: bool,
    },
    /// A whitespace-delimited word, with no filter but maybe a regex.
    Word { reg: Option<RegexFilter> },
}

/// A named capture of a command.
#[derive(Clone, Debug)]
pub struct Capture {
    /// The name the capture's matches are found under.
    pub name: String,
    pub quantifier: Quantifier,
    /// Alternatives, tried in order; none means any word.
    pub patterns: Vec<Pattern>,
}

/// One element of a compiled command.
#[derive(Clone, Debug)]
pub enum Segment {
    /// Literal text; it does not capture.
    Text(String),
    /// A single capture, e.g. `<foo: starts("bar")>`.
    Capture(Capture),
    /// A capture group, e.g. `{<first> <second: "lol">}`.
    Group(Vec<Capture>),
    /// A priority group, e.g. `[<first> <second> <third?: "foo">]`.
    PriorityGroup(Vec<Capture>),
}

/// The model of a [`Pattern`]: strings as character sequences, a regex set
/// as the sources it was compiled from.
pub enum PatternModel {
    Eq { any_of: Seq<Seq<char>>, no_case: bool },
    Delimited {
        starts: Seq<Seq<char>>,
        ends: Seq<Seq<char>>,
        reg: Option<Seq<Seq<char>>>,
        no_case: bool,
        no_trim: bool,
    },
    Word { reg: Option<Seq<Seq<char>>> },
}

pub struct CaptureModel {
    pub name: Seq<char>,
    pub quantifier: Quantifier,
    pub patterns: Seq<PatternModel>,
}

pub enum SegmentModel {
    Text(Seq<char>),
    Capture(CaptureModel),
    Group(Seq<CaptureModel>),
    PriorityGroup(Seq<CaptureModel>),
}

pub open spec fn regex_model(r: Option<RegexFilter>) -> Option<Seq<Seq<char>>> {
    match r {
        Some(f) => Some(f.sources()),
        None => None,
    }
}

impl View for Pattern {
    type V = PatternModel;

    open spec fn view(&self) -> PatternModel {
        match self {
            Pattern::Eq { any_of, no_case } => PatternModel::Eq { any_of: strs(any_of@), no_case: *no_case },
            Pattern::Delimited { starts, ends, reg, no_case, no_trim } => PatternModel::Delimited {
                starts: strs(starts@),
                ends: strs(ends@),
                reg: regex_model(*reg),
                no_case: *no_case,
                no_trim: *no_trim,
            },
            Pattern::Word { reg } => PatternModel::Word { reg: regex_model(*reg) },
        }
    }
}

pub open spec fn patterns_model(v: Seq<Pattern>) -> Seq<PatternModel> {
    v.map_values(|p: Pattern| p@)
}

impl View for Capture {
    type V = CaptureModel;

    open spec fn view(&self) -> CaptureModel {
        CaptureModel {
            name: self.name@,
            quantifier: self.quantifier,
            patterns: patterns_model(self.patterns@),
        }
    }
}

pub open spec fn captures_model(v: Seq<Capture>) -> Seq<CaptureModel> {
    v.map_values(|c: Capture| c@)
}

impl View for Segment {
    type V = SegmentModel;

    open spec fn view(&self) -> SegmentModel {
        match self {
            Segment::Text(t) => SegmentModel::Text(t@),
            Segment::Capture(c) => SegmentModel::Capture(c@),
            Segment::Group(cs) => SegmentModel::Group(captures_model(cs@)),
            Segment::PriorityGroup(cs) => SegmentModel::PriorityGroup(captures_model(cs@)),
        }
    }
}

pub open spec fn segments_model(v: Seq<Segment>) -> Seq<SegmentModel> {
    v.map_values(|s: Segment| s@)
}

/// Patterns other than a bare word without a regex can be told apart from
/// whatever follows them.
pub open spec fn pattern_deterministic(p: PatternModel) -> bool {
    !(p matches PatternModel::Word { reg: None })
}

pub open spec fn capture_deterministic(c: CaptureModel) -> bool {
    c.quantifier == Quantifier::Once || (c.patterns.len() > 0 && forall|k: int|
        0 <= k < c.patterns.len() ==> pattern_deterministic(#[trigger] c.patterns[k]))
}

pub open spec fn all_captures_deterministic(cs: Seq<CaptureModel>) -> bool {
    forall|k: int| 0 <= k < cs.len() ==> capture_deterministic(#[trigger] cs[k])
}

pub open spec fn segment_deterministic(s: SegmentModel) -> bool {
    match s {
        SegmentModel::Text(_) => true,
        SegmentModel::Capture(c) => capture_deterministic(c),
        SegmentModel::Group(cs) => all_captures_deterministic(cs),
        SegmentModel::PriorityGroup(cs) => all_captures_deterministic(cs),
    }
}

impl Pattern {
    pub fn is_deterministic(&self) -> (r: bool)
        ensures
            r == pattern_deterministic(self@),
    {
        match self {
            Pattern::Word { reg: None } => false,
            _ => true,
        }
    }
}

impl Capture {
    pub fn is_deterministic(&self) -> (r: bool)
        ensures
            r == capture_deterministic(self@),
    {
        if self.quantifier == Quantifier::Once {
            return true;
        }
        if self.patterns.len() == 0 {
            return false;
        }
        let mut k: usize = 0;
        while k < self.patterns.len()
            invariant
                k <= self.patterns.len(),
                self.quantifier != Quantifier::Once,
                forall|j: int| 0 <= j < k ==> pattern_deterministic(#[trigger] self@.patterns[j]),
            decreases self.patterns.len() - k,
        {
            if !self.patterns[k].is_deterministic() {
                assert(self@.patterns[k as int] == self.patterns@[k as int]@);
                return false;
            }
            k = k + 1;
        }
        true
    }
}

fn all_deterministic(cs: &Vec<Capture>) -> (r: bool)
    ensures
        r == all_captures_deterministic(captures_model(cs@)),
{
    let mut k: usize = 0;
    while k < cs.len()
        invariant
            k <= cs.len(),
            forall|j: int| 0 <= j < k ==> capture_deterministic(#[trigger] captures_model(cs@)[j]),
        decreases cs.len() - k,
    {
        if !cs[k].is_deterministic() {
            assert(!capture_deterministic(captures_model(cs@)[k as int]));
            return false;
        }
        k = k + 1;
    }
    true
}

impl Segment {
    pub fn is_deterministic(&self) -> (r: bool)
        ensures
            r == segment_deterministic(self@),
    {
        match self {
            Segment::Text(_) => true,
            Segment::Capture(c) => c.is_deterministic(),
            Segment::Group(cs) => all_deterministic(cs),
            Segment::PriorityGroup(cs) => all_deterministic(cs),
        }
    }
}

impl Quantifier {
    /// How the quantifier is written after a capture's name.
    pub fn symbol(&self) -> (r: &'static str)
        ensures
            r == match self {
                Quantifier::Once => "",
                Quantifier::MaybeOnce => "?",
                Quantifier::Many0 => "*",
                Quantifier::Many1 => "+",
            },
    {
        match self {
            Quantifier::Once => "",
            Quantifier::MaybeOnce => "?",
            Quantifier::Many0 => "*",
            Quantifier::Many1 => "+",
        }
    }
}

} // verus!
