//! The matching engine: quantified captures with lookahead, priority groups
//! with rollback, and the driver that walks a command's segments.
//!
//! The model is a family of mutually recursive spec functions over the
//! segments and the input's characters; each executable function is proved
//! to compute exactly its model.
use vstd::prelude::*;
use crate::ast::{
    captures_model, segments_model, Capture, CaptureModel, Quantifier, Segment, SegmentModel,
};
use crate::pattern::{any_of, first_pattern_at, hit, hit_in, match_word, word_at};
use crate::text::{chars_of, matches_at, multispace_end, skip_multispace, starts_at};
use vstd::pervasive::VecAdditionalExecFns;

verus! {

/// The most values one capture collects.
pub const MANY_LIMIT: usize = 50;

/// A span `a..b` of the input.
pub type Span = (nat, nat);

/// What one capture matched, as spans.
pub enum SpanMatch {
    Once(Span),
    Many(Seq<Span>),
}

/// A capture name with what it matched.
pub type Entry = (Seq<char>, SpanMatch);

/// What one capture matched, as positions in the input.
#[derive(Debug)]
pub enum Found {
    Once(usize, usize),
    Many(Vec<(usize, usize)>),
}

pub open spec fn span_of(p: (usize, usize)) -> Span {
    (p.0 as nat, p.1 as nat)
}

pub open spec fn spans_of(v: Seq<(usize, usize)>) -> Seq<Span> {
    v.map_values(|p: (usize, usize)| span_of(p))
}

impl View for Found {
    type V = SpanMatch;

    open spec fn view(&self) -> SpanMatch {
        match self {
            Found::Once(a, b) => SpanMatch::Once((*a as nat, *b as nat)),
            Found::Many(v) => SpanMatch::Many(spans_of(v@)),
        }
    }
}

pub open spec fn entries_of(v: Seq<(String, Found)>) -> Seq<Entry> {
    v.map_values(|e: (String, Found)| (e.0@, e.1@))
}

/// Every span of a match lies within `0..len`, in order.
pub open spec fn span_ok(sp: Span, len: nat) -> bool {
    sp.0 <= sp.1 <= len
}

pub open spec fn found_ok(m: SpanMatch, len: nat) -> bool {
    match m {
        SpanMatch::Once(sp) => span_ok(sp, len),
        SpanMatch::Many(v) => forall|k: int| 0 <= k < v.len() ==> span_ok(#[trigger] v[k], len),
    }
}

pub open spec fn entries_ok(es: Seq<Entry>, len: nat) -> bool {
    forall|k: int| 0 <= k < es.len() ==> found_ok(#[trigger] es[k].1, len)
}

/// How many values a capture with quantifier `q` takes at most.
pub open spec fn limit(q: Quantifier) -> nat {
    if q == Quantifier::Once || q == Quantifier::MaybeOnce {
        1
    } else {
        MANY_LIMIT as nat
    }
}

/// One attempt of a capture's patterns (or of a bare word, with none) at `pos`.
pub open spec fn attempt(c: CaptureModel, s: Seq<char>, pos: nat) -> Option<(nat, nat, nat)> {
    if c.patterns.len() == 0 {
        word_at(None, s, pos)
    } else {
        first_pattern_at(c.patterns, s, pos, 0)
    }
}

/// Matches `segs[i..]` from `pos`: the position where the rest starts and
/// the entries, in the order they were matched.
pub open spec fn run_from(segs: Seq<SegmentModel>, i: nat, s: Seq<char>, pos: nat) -> Option<(nat, Seq<Entry>)>
    decreases segs.len() - i, 4int, 0int,
{
    if i >= segs.len() {
        Some((pos, Seq::empty()))
    } else {
        match segment_at(segs, i, s, pos) {
            None => None,
            Some((r, es)) => match run_from(segs, i + 1, s, r) {
                None => None,
                Some((r2, es2)) => Some((r2, es + es2)),
            },
        }
    }
}

/// The lookahead of segment `i`: the segments after it match from `pos`.
pub open spec fn lookahead_ok(segs: Seq<SegmentModel>, i: nat, s: Seq<char>, pos: nat) -> bool
    decreases segs.len() - i, 0int, 0int,
{
    if i < segs.len() {
        run_from(segs, i + 1, s, pos) is Some
    } else {
        true
    }
}

/// Matches segment `i` alone from `pos`, with the segments after it as lookahead.
pub open spec fn segment_at(segs: Seq<SegmentModel>, i: nat, s: Seq<char>, pos: nat) -> Option<(nat, Seq<Entry>)>
    decreases segs.len() - i, 3int, 0int,
{
    if i >= segs.len() {
        None
    } else {
        match segs[i as int] {
            SegmentModel::Text(t) => {
                let a = multispace_end(s, pos);
                if starts_at(s, a, t) {
                    Some((a + t.len(), Seq::empty()))
                } else {
                    None
                }
            },
            SegmentModel::Capture(c) => match capture_at(segs, i, c, s, pos) {
                None => None,
                Some((r, None)) => Some((r, Seq::empty())),
                Some((r, Some(m))) => Some((r, seq![(c.name, m)])),
            },
            SegmentModel::Group(cs) => group_at(segs, i, cs, s, pos),
            SegmentModel::PriorityGroup(cs) => group_at(segs, i, cs, s, pos),
        }
    }
}

/// Matches capture `c`, standing at segment `i`, from `pos`: the position
/// after it and what it matched, if anything.
pub open spec fn capture_at(segs: Seq<SegmentModel>, i: nat, c: CaptureModel, s: Seq<char>, pos: nat) -> Option<(nat, Option<SpanMatch>)>
    decreases segs.len() - i, 2int, 0int,
{
    match attempt(c, s, pos) {
        None => if c.quantifier == Quantifier::Once || c.quantifier == Quantifier::Many1 {
            None
        } else {
            Some((pos, None))
        },
        Some((a, b, r)) => if c.quantifier == Quantifier::Once {
            Some((r, Some(SpanMatch::Once((a, b)))))
        } else if c.quantifier == Quantifier::MaybeOnce {
            if lookahead_ok(segs, i, s, r) {
                Some((r, Some(SpanMatch::Once((a, b)))))
            } else {
                Some((pos, None))
            }
        } else {
            let (p, vs) = repeat_from(segs, i, c, s, r, seq![(a, b)], r, 1);
            Some((p, Some(SpanMatch::Many(vs))))
        },
    }
}

/// The greedy loop of `*` and `+`: keeps matching while it can (up to the
/// limit), remembering the last position where the lookahead held and how
/// many values were taken by then; it ends rewound to that point.
pub open spec fn repeat_from(
    segs: Seq<SegmentModel>,
    i: nat,
    c: CaptureModel,
    s: Seq<char>,
    cur: nat,
    vals: Seq<Span>,
    good_pos: nat,
    good_count: nat,
) -> (nat, Seq<Span>)
    decreases segs.len() - i, 1int, MANY_LIMIT - vals.len(),
{
    if vals.len() >= MANY_LIMIT {
        (good_pos, vals.take(good_count as int))
    } else {
        match attempt(c, s, cur) {
            None => (good_pos, vals.take(good_count as int)),
            Some((a, b, r)) => {
                let vs = vals.push((a, b));
                if lookahead_ok(segs, i, s, r) {
                    repeat_from(segs, i, c, s, r, vs, r, vs.len())
                } else {
                    repeat_from(segs, i, c, s, r, vs, good_pos, good_count)
                }
            },
        }
    }
}

/// The order in which group members compete, lower first: members with
/// patterns come before bare words, so that a word that takes anything does
/// not take what a pattern was written for; among each, required members
/// (none or `+`) come first, then `?`, then `*`.
pub open spec fn rank(c: CaptureModel) -> nat {
    let required = c.quantifier == Quantifier::Once || c.quantifier == Quantifier::Many1;
    if c.patterns.len() > 0 {
        if required {
            0
        } else if c.quantifier == Quantifier::MaybeOnce {
            1
        } else {
            2
        }
    } else if required {
        3
    } else {
        4
    }
}

pub open spec fn of_rank(cs: Seq<CaptureModel>, r: nat) -> Seq<CaptureModel> {
    cs.filter(|c: CaptureModel| rank(c) == r)
}

/// The members of a group sorted by rank, keeping their order within a rank.
pub open spec fn ordered(cs: Seq<CaptureModel>) -> Seq<CaptureModel> {
    of_rank(cs, 0) + of_rank(cs, 1) + of_rank(cs, 2) + of_rank(cs, 3) + of_rank(cs, 4)
}

pub open spec fn is_done(c: CaptureModel, vals: Seq<Span>) -> bool {
    vals.len() >= limit(c.quantifier)
}

pub open spec fn needs_more(c: CaptureModel, vals: Seq<Span>) -> bool {
    (c.quantifier == Quantifier::Once || c.quantifier == Quantifier::Many1) && vals.len() == 0
}

/// Every required member has a value.
pub open spec fn acceptable(ms: Seq<CaptureModel>, st: Seq<Seq<Span>>) -> bool {
    forall|k: int| 0 <= k < ms.len() ==> !needs_more(ms[k], #[trigger] st[k])
}

/// The first member from `j` on that is not done and matches at `pos`.
pub open spec fn first_member(ms: Seq<CaptureModel>, st: Seq<Seq<Span>>, s: Seq<char>, pos: nat, j: nat) -> Option<(nat, (nat, nat, nat))>
    decreases ms.len() - j,
{
    if j >= ms.len() {
        None
    } else if !is_done(ms[j as int], st[j as int]) && attempt(ms[j as int], s, pos) is Some {
        Some((j, attempt(ms[j as int], s, pos)->0))
    } else {
        first_member(ms, st, s, pos, j + 1)
    }
}

/// How many more values the members can take.
pub open spec fn room(ms: Seq<CaptureModel>, st: Seq<Seq<Span>>) -> int
    decreases ms.len(),
{
    if ms.len() == 0 {
        0
    } else {
        room(ms.drop_last(), st.drop_last()) + limit(ms.last().quantifier) - st.last().len()
    }
}

/// Each member holds no more values than it may take.
pub open spec fn within_limits(ms: Seq<CaptureModel>, st: Seq<Seq<Span>>) -> bool {
    &&& st.len() == ms.len()
    &&& forall|k: int| 0 <= k < ms.len() ==> #[trigger] st[k].len() <= limit(ms[k].quantifier)
}

pub proof fn lemma_room_nonneg(ms: Seq<CaptureModel>, st: Seq<Seq<Span>>)
    requires
        within_limits(ms, st),
    ensures
        room(ms, st) >= 0,
    decreases ms.len(),
{
    if ms.len() > 0 {
        let (m2, s2) = (ms.drop_last(), st.drop_last());
        assert forall|k: int| 0 <= k < m2.len() implies #[trigger] s2[k].len() <= limit(m2[k].quantifier) by {
            assert(st[k].len() <= limit(ms[k].quantifier));
        }
        lemma_room_nonneg(m2, s2);
        assert(st[ms.len() - 1].len() <= limit(ms[ms.len() - 1].quantifier));
    }
}

pub proof fn lemma_within_limits_push(ms: Seq<CaptureModel>, st: Seq<Seq<Span>>, k: int, v: Span)
    requires
        within_limits(ms, st),
        0 <= k < ms.len(),
        !is_done(ms[k], st[k]),
    ensures
        within_limits(ms, st.update(k, st[k].push(v))),
{
    let st2 = st.update(k, st[k].push(v));
    assert forall|j: int| 0 <= j < ms.len() implies #[trigger] st2[j].len() <= limit(ms[j].quantifier) by {
        assert(st[j].len() <= limit(ms[j].quantifier));
    }
}

pub proof fn lemma_room_update(ms: Seq<CaptureModel>, st: Seq<Seq<Span>>, k: int, v: Span)
    requires
        st.len() == ms.len(),
        0 <= k < ms.len(),
    ensures
        room(ms, st.update(k, st[k].push(v))) == room(ms, st) - 1,
    decreases ms.len(),
{
    let st2 = st.update(k, st[k].push(v));
    if k == ms.len() - 1 {
        assert(st2.drop_last() =~= st.drop_last());
    } else {
        assert(st2.drop_last() =~= st.drop_last().update(k, st.drop_last()[k].push(v)));
        lemma_room_update(ms.drop_last(), st.drop_last(), k, v);
    }
}

/// The resolver's loop: each round gives the input at `pos` to the first
/// member, in rank order, that is not done and matches it; after a round that leaves the
/// group acceptable with the lookahead holding, the state is the new
/// snapshot. When no member matches, the result is the snapshot, if
/// acceptable.
pub open spec fn group_from(
    segs: Seq<SegmentModel>,
    i: nat,
    ms: Seq<CaptureModel>,
    s: Seq<char>,
    st: Seq<Seq<Span>>,
    pos: nat,
    snap: Seq<Seq<Span>>,
    snap_pos: nat,
) -> Option<(nat, Seq<Seq<Span>>)>
    decreases segs.len() - i, 1int, room(ms, st),
    when within_limits(ms, st)
{
    match first_member(ms, st, s, pos, 0) {
        None => if acceptable(ms, snap) {
            Some((snap_pos, snap))
        } else {
            None
        },
        Some((k, (a, b, r))) => {
            let st2 = st.update(k as int, st[k as int].push((a, b)));
            proof {
                lemma_first_member(ms, st, s, pos, 0);
                lemma_room_update(ms, st, k as int, (a, b));
                lemma_within_limits_push(ms, st, k as int, (a, b));
                lemma_room_nonneg(ms, st2);
            }
            if acceptable(ms, st2) && lookahead_ok(segs, i, s, r) {
                group_from(segs, i, ms, s, st2, r, st2, r)
            } else {
                group_from(segs, i, ms, s, st2, r, snap, snap_pos)
            }
        },
    }
}

pub proof fn lemma_first_member(ms: Seq<CaptureModel>, st: Seq<Seq<Span>>, s: Seq<char>, pos: nat, j: nat)
    ensures
        first_member(ms, st, s, pos, j) matches Some((k, h)) ==> j <= k < ms.len()
            && !is_done(ms[k as int], st[k as int]) && attempt(ms[k as int], s, pos) == Some(h),
    decreases ms.len() - j,
{
    if j < ms.len() && !(!is_done(ms[j as int], st[j as int]) && attempt(ms[j as int], s, pos) is Some) {
        lemma_first_member(ms, st, s, pos, j + 1);
    }
}

/// A state with no values for `n` members.
pub open spec fn empty_state(n: nat) -> Seq<Seq<Span>> {
    Seq::new(n, |k: int| Seq::<Span>::empty())
}

/// The entries of a finished group, in member order, for the members that matched.
pub open spec fn finalize(ms: Seq<CaptureModel>, st: Seq<Seq<Span>>) -> Seq<Entry>
    decreases ms.len(),
{
    if ms.len() == 0 {
        Seq::empty()
    } else {
        let prev = finalize(ms.drop_last(), st.drop_last());
        let c = ms.last();
        let v = st[ms.len() - 1];
        if v.len() == 0 {
            prev
        } else if c.quantifier == Quantifier::Once || c.quantifier == Quantifier::MaybeOnce {
            prev.push((c.name, SpanMatch::Once(v[0])))
        } else {
            prev.push((c.name, SpanMatch::Many(v)))
        }
    }
}

/// Matches a group standing at segment `i` from `pos`.
pub open spec fn group_at(segs: Seq<SegmentModel>, i: nat, cs: Seq<CaptureModel>, s: Seq<char>, pos: nat) -> Option<(nat, Seq<Entry>)>
    decreases segs.len() - i, 2int, 0int,
{
    let ms = ordered(cs);
    let st0 = empty_state(ms.len());
    match group_from(segs, i, ms, s, st0, pos, st0, pos) {
        None => None,
        Some((r, st)) => Some((r, finalize(ms, st))),
    }
}


/// The result of an executable matcher, in the terms of the model.
pub open spec fn outcome(r: Option<(usize, Vec<(String, Found)>)>) -> Option<(nat, Seq<Entry>)> {
    match r {
        Some((p, v)) => Some((p as nat, entries_of(v@))),
        None => None,
    }
}

/// A result that stays within the input and does not move backwards.
pub open spec fn outcome_ok(r: Option<(usize, Vec<(String, Found)>)>, pos: nat, len: nat) -> bool {
    r matches Some((p, v)) ==> pos <= p <= len && entries_ok(entries_of(v@), len)
}

pub open spec fn state_of(st: Seq<Vec<(usize, usize)>>) -> Seq<Seq<Span>> {
    st.map_values(|v: Vec<(usize, usize)>| spans_of(v@))
}

pub open spec fn spans_ok(v: Seq<(usize, usize)>, len: nat) -> bool {
    forall|k: int| 0 <= k < v.len() ==> #[trigger] v[k].0 <= v[k].1 <= len
}

pub open spec fn state_ok(st: Seq<Vec<(usize, usize)>>, len: nat) -> bool {
    forall|k: int| 0 <= k < st.len() ==> spans_ok(#[trigger] st[k]@, len)
}

fn attempt_capture(c: &Capture, input: &str, s: &Vec<char>, pos: usize) -> (r: Option<(usize, usize, usize)>)
    requires
        s@ == input@,
        pos <= s.len(),
    ensures
        hit(r) == attempt(c@, s@, pos as nat),
        hit_in(r, pos as nat, s.len() as nat),
{
    if c.patterns.len() == 0 {
        match_word(&None, input, s, pos)
    } else {
        any_of(&c.patterns, input, s, pos)
    }
}

/// Matches `segs[i..]` from `pos`.
pub fn run_segments(segs: &[Segment], i: usize, input: &str, s: &Vec<char>, pos: usize) -> (r: Option<(usize, Vec<(String, Found)>)>)
    requires
        s@ == input@,
        pos <= s.len(),
    ensures
        outcome(r) == run_from(segments_model(segs@), i as nat, s@, pos as nat),
        outcome_ok(r, pos as nat, s.len() as nat),
    decreases segs.len() - i, 4int, 0int,
{
    if i >= segs.len() {
        let v: Vec<(String, Found)> = Vec::new();
        proof {
            assert(entries_of(v@) =~= Seq::empty());
        }
        return Some((pos, v));
    }
    match match_segment(segs, i, input, s, pos) {
        None => None,
        Some((r, es)) => match run_segments(segs, i + 1, input, s, r) {
            None => None,
            Some((r2, es2)) => {
                let mut es = es;
                let mut es2 = es2;
                let ghost e1 = es@;
                let ghost e2 = es2@;
                es.append(&mut es2);
                proof {
                    assert(entries_of(es@) =~= entries_of(e1) + entries_of(e2));
                    assert forall|k: int| 0 <= k < entries_of(es@).len() implies found_ok(
                        #[trigger] entries_of(es@)[k].1,
                        s.len() as nat,
                    ) by {
                        if k < e1.len() {
                            assert(entries_of(es@)[k] == entries_of(e1)[k]);
                        } else {
                            assert(entries_of(es@)[k] == entries_of(e2)[k - e1.len()]);
                        }
                    }
                }
                Some((r2, es))
            },
        },
    }
}

/// Whether the segments after `i` match from `pos`.
fn lookahead(segs: &[Segment], i: usize, input: &str, s: &Vec<char>, pos: usize) -> (r: bool)
    requires
        s@ == input@,
        pos <= s.len(),
    ensures
        r == lookahead_ok(segments_model(segs@), i as nat, s@, pos as nat),
    decreases segs.len() - i, 0int, 0int,
{
    if i < segs.len() {
        run_segments(segs, i + 1, input, s, pos).is_some()
    } else {
        true
    }
}

/// Matches segment `i` from `pos`.
fn match_segment(segs: &[Segment], i: usize, input: &str, s: &Vec<char>, pos: usize) -> (r: Option<(usize, Vec<(String, Found)>)>)
    requires
        s@ == input@,
        pos <= s.len(),
    ensures
        outcome(r) == segment_at(segments_model(segs@), i as nat, s@, pos as nat),
        outcome_ok(r, pos as nat, s.len() as nat),
    decreases segs.len() - i, 3int, 0int,
{
    if i >= segs.len() {
        return None;
    }
    let ghost model = segments_model(segs@);
    assert(model[i as int] == segs@[i as int]@);
    match &segs[i] {
        Segment::Text(t) => {
            let a = skip_multispace(s, pos);
            let tc = chars_of(t.as_str());
            if matches_at(s, a, &tc) {
                let v: Vec<(String, Found)> = Vec::new();
                proof {
                    assert(entries_of(v@) =~= Seq::empty());
                }
                Some((a + tc.len(), v))
            } else {
                None
            }
        },
        Segment::Capture(c) => match match_capture(segs, i, c, input, s, pos) {
            None => None,
            Some((r, None)) => {
                let v: Vec<(String, Found)> = Vec::new();
                proof {
                    assert(entries_of(v@) =~= Seq::empty());
                }
                Some((r, v))
            },
            Some((r, Some(m))) => {
                let mut v: Vec<(String, Found)> = Vec::new();
                v.push((c.name.clone(), m));
                proof {
                    assert(entries_of(v@) =~= seq![(c@.name, v@[0].1@)]);
                }
                Some((r, v))
            },
        },
        Segment::Group(cs) => match_group(segs, i, cs, input, s, pos),
        Segment::PriorityGroup(cs) => match_group(segs, i, cs, input, s, pos),
    }
}

/// Matches capture `c`, standing at segment `i`, from `pos`.
fn match_capture(segs: &[Segment], i: usize, c: &Capture, input: &str, s: &Vec<char>, pos: usize) -> (r: Option<(usize, Option<Found>)>)
    requires
        s@ == input@,
        pos <= s.len(),
    ensures
        match r {
            Some((p, m)) => {
                &&& capture_at(segments_model(segs@), i as nat, c@, s@, pos as nat) == Some((
                    p as nat,
                    match m {
                        Some(f) => Some(f@),
                        None => None,
                    },
                ))
                &&& pos <= p <= s.len()
                &&& (m matches Some(f) ==> found_ok(f@, s.len() as nat))
            },
            None => capture_at(segments_model(segs@), i as nat, c@, s@, pos as nat) is None,
        },
    decreases segs.len() - i, 2int, 0int,
{
    let ghost model = segments_model(segs@);
    match attempt_capture(c, input, s, pos) {
        None => {
            if c.quantifier == Quantifier::Once || c.quantifier == Quantifier::Many1 {
                None
            } else {
                Some((pos, None))
            }
        },
        Some((a, b, r)) => {
            if c.quantifier == Quantifier::Once {
                Some((r, Some(Found::Once(a, b))))
            } else if c.quantifier == Quantifier::MaybeOnce {
                if lookahead(segs, i, input, s, r) {
                    Some((r, Some(Found::Once(a, b))))
                } else {
                    Some((pos, None))
                }
            } else {
                let mut vals: Vec<(usize, usize)> = Vec::new();
                vals.push((a, b));
                let mut cur = r;
                let mut good_pos = r;
                let mut good_count: usize = 1;
                proof {
                    assert(spans_of(vals@) =~= seq![(a as nat, b as nat)]);
                }
                loop
                    invariant
                        s@ == input@,
                        model == segments_model(segs@),
                        pos <= good_pos <= s.len(),
                        pos <= cur <= s.len(),
                        1 <= good_count <= vals.len() <= MANY_LIMIT,
                        spans_ok(vals@, s.len() as nat),
                        repeat_from(model, i as nat, c@, s@, cur as nat, spans_of(vals@), good_pos as nat, good_count as nat)
                            == repeat_from(model, i as nat, c@, s@, r as nat, seq![(a as nat, b as nat)], r as nat, 1),
                    ensures
                        pos <= good_pos <= s.len(),
                        1 <= good_count <= vals.len(),
                        spans_ok(vals@, s.len() as nat),
                        repeat_from(model, i as nat, c@, s@, r as nat, seq![(a as nat, b as nat)], r as nat, 1)
                            == (good_pos as nat, spans_of(vals@).take(good_count as int)),
                    decreases MANY_LIMIT - vals.len(),
                {
                    if vals.len() >= MANY_LIMIT {
                        break;
                    }
                    match attempt_capture(c, input, s, cur) {
                        None => break,
                        Some((a2, b2, r2)) => {
                            let ghost old_vals = vals@;
                            vals.push((a2, b2));
                            proof {
                                assert(spans_of(vals@) =~= spans_of(old_vals).push((a2 as nat, b2 as nat)));
                            }
                            cur = r2;
                            if lookahead(segs, i, input, s, r2) {
                                good_pos = r2;
                                good_count = vals.len();
                            }
                        },
                    }
                }
                let ghost full = vals@;
                vals.truncate(good_count);
                proof {
                    assert(spans_of(vals@) =~= spans_of(full).take(good_count as int));
                    assert(repeat_from(model, i as nat, c@, s@, r as nat, seq![(a as nat, b as nat)], r as nat, 1)
                        == (good_pos as nat, spans_of(vals@)));
                    assert(spans_ok(vals@, s.len() as nat)) by {
                        assert forall|q: int| 0 <= q < vals@.len() implies #[trigger] vals@[q].0 <= vals@[q].1 <= s.len() by {
                            assert(vals@[q] == full[q]);
                        }
                    }
                    assert forall|q: int| 0 <= q < spans_of(vals@).len() implies span_ok(#[trigger] spans_of(vals@)[q], s.len() as nat) by {
                        assert(vals@[q].0 <= vals@[q].1 <= s.len());
                    }
                }
                Some((good_pos, Some(Found::Many(vals))))
            }
        },
    }
}

pub fn limit_of(q: Quantifier) -> (r: usize)
    ensures
        r == limit(q),
{
    if q == Quantifier::Once || q == Quantifier::MaybeOnce {
        1
    } else {
        MANY_LIMIT
    }
}

pub fn rank_of(c: &Capture) -> (r: usize)
    ensures
        r == rank(c@),
{
    let required = c.quantifier == Quantifier::Once || c.quantifier == Quantifier::Many1;
    if c.patterns.len() > 0 {
        if required {
            0
        } else if c.quantifier == Quantifier::MaybeOnce {
            1
        } else {
            2
        }
    } else if required {
        3
    } else {
        4
    }
}

/// The ranks below `n`, each in member order, one after another.
pub open spec fn ranks_upto(cs: Seq<CaptureModel>, n: nat) -> Seq<CaptureModel>
    decreases n,
{
    if n == 0 {
        Seq::empty()
    } else {
        ranks_upto(cs, (n - 1) as nat) + of_rank(cs, (n - 1) as nat)
    }
}

pub open spec fn picked(cs: Seq<CaptureModel>, order: Seq<usize>) -> Seq<CaptureModel> {
    order.map_values(|j: usize| cs[j as int])
}

/// The indices of a group's members, in the order they compete.
fn order_members(cs: &Vec<Capture>) -> (r: Vec<usize>)
    ensures
        forall|k: int| 0 <= k < r.len() ==> #[trigger] r@[k] < cs.len(),
        picked(captures_model(cs@), r@) == ordered(captures_model(cs@)),
{
    let ghost cm = captures_model(cs@);
    let mut r: Vec<usize> = Vec::new();
    let mut rk: usize = 0;
    while rk < 5
        invariant
            cm == captures_model(cs@),
            rk <= 5,
            forall|k: int| 0 <= k < r.len() ==> #[trigger] r@[k] < cs.len(),
            picked(cm, r@) == ranks_upto(cm, rk as nat),
        decreases 5 - rk,
    {
        let mut j: usize = 0;
        while j < cs.len()
            invariant
                cm == captures_model(cs@),
                rk < 5,
                j <= cs.len(),
                forall|k: int| 0 <= k < r.len() ==> #[trigger] r@[k] < cs.len(),
                picked(cm, r@) == ranks_upto(cm, rk as nat) + of_rank(cm.take(j as int), rk as nat),
            decreases cs.len() - j,
        {
            let ghost before = r@;
            proof {
                assert(cm.take(j + 1) =~= cm.take(j as int).push(cm[j as int]));
                cm.take(j as int).lemma_filter_push(cm[j as int], |c: CaptureModel| rank(c) == rk as nat);
            }
            if rank_of(&cs[j]) == rk {
                r.push(j);
                assert(picked(cm, r@) =~= picked(cm, before).push(cm[j as int]));
            }
            j = j + 1;
        }
        assert(cm.take(cs.len() as int) =~= cm);
        rk = rk + 1;
    }
    proof {
        reveal_with_fuel(ranks_upto, 6);
        assert(ranks_upto(cm, 5) =~= ordered(cm));
    }
    r
}

fn copy_spans(v: &Vec<(usize, usize)>) -> (r: Vec<(usize, usize)>)
    ensures
        r@ == v@,
{
    let mut r: Vec<(usize, usize)> = Vec::new();
    let mut k: usize = 0;
    while k < v.len()
        invariant
            k <= v.len(),
            r@ == v@.take(k as int),
        decreases v.len() - k,
    {
        r.push(v[k]);
        assert(r@ =~= v@.take(k + 1));
        k = k + 1;
    }
    assert(r@ =~= v@);
    r
}

fn copy_state(st: &Vec<Vec<(usize, usize)>>) -> (r: Vec<Vec<(usize, usize)>>)
    ensures
        r@.len() == st@.len(),
        forall|k: int| 0 <= k < st.len() ==> #[trigger] r@[k]@ == st@[k]@,
{
    let mut r: Vec<Vec<(usize, usize)>> = Vec::new();
    let mut k: usize = 0;
    while k < st.len()
        invariant
            k <= st.len(),
            r@.len() == k,
            forall|j: int| 0 <= j < k ==> #[trigger] r@[j]@ == st@[j]@,
        decreases st.len() - k,
    {
        r.push(copy_spans(&st[k]));
        k = k + 1;
    }
    r
}

fn is_acceptable(cs: &Vec<Capture>, order: &Vec<usize>, st: &Vec<Vec<(usize, usize)>>) -> (r: bool)
    requires
        st.len() == order.len(),
        forall|k: int| 0 <= k < order.len() ==> #[trigger] order@[k] < cs.len(),
    ensures
        r == acceptable(picked(captures_model(cs@), order@), state_of(st@)),
{
    let ghost ms = picked(captures_model(cs@), order@);
    let mut k: usize = 0;
    while k < order.len()
        invariant
            st.len() == order.len(),
            forall|j: int| 0 <= j < order.len() ==> #[trigger] order@[j] < cs.len(),
            ms == picked(captures_model(cs@), order@),
            k <= order.len(),
            forall|j: int| 0 <= j < k ==> !needs_more(ms[j], #[trigger] state_of(st@)[j]),
        decreases order.len() - k,
    {
        let c = &cs[order[k]];
        assert(ms[k as int] == c@);
        if (c.quantifier == Quantifier::Once || c.quantifier == Quantifier::Many1) && st[k].len() == 0 {
            assert(needs_more(ms[k as int], state_of(st@)[k as int]));
            return false;
        }
        k = k + 1;
    }
    true
}

fn finalize_group(cs: &Vec<Capture>, order: &Vec<usize>, st: &Vec<Vec<(usize, usize)>>) -> (r: Vec<(String, Found)>)
    requires
        st.len() == order.len(),
        forall|k: int| 0 <= k < order.len() ==> #[trigger] order@[k] < cs.len(),
    ensures
        entries_of(r@) == finalize(picked(captures_model(cs@), order@), state_of(st@)),
        forall|k: int| 0 <= k < r.len() ==> exists|j: int| 0 <= j < st.len() && st@[j]@.len() > 0 && (#[trigger] r@[k]).1@ == match r@[k].1@ {
            SpanMatch::Once(sp) => SpanMatch::Once(spans_of(st@[j]@)[0]),
            SpanMatch::Many(_) => SpanMatch::Many(spans_of(st@[j]@)),
        },
{
    let ghost ms = picked(captures_model(cs@), order@);
    let ghost sv = state_of(st@);
    let mut r: Vec<(String, Found)> = Vec::new();
    let mut k: usize = 0;
    while k < order.len()
        invariant
            st.len() == order.len(),
            forall|j: int| 0 <= j < order.len() ==> #[trigger] order@[j] < cs.len(),
            ms == picked(captures_model(cs@), order@),
            sv == state_of(st@),
            k <= order.len(),
            entries_of(r@) == finalize(ms.take(k as int), sv.take(k as int)),
            forall|q: int| 0 <= q < r.len() ==> exists|j: int| 0 <= j < st.len() && st@[j]@.len() > 0 && (#[trigger] r@[q]).1@ == match r@[q].1@ {
                SpanMatch::Once(sp) => SpanMatch::Once(spans_of(st@[j]@)[0]),
                SpanMatch::Many(_) => SpanMatch::Many(spans_of(st@[j]@)),
            },
        decreases order.len() - k,
    {
        let c = &cs[order[k]];
        let ghost before = r@;
        assert(ms.take(k + 1).drop_last() =~= ms.take(k as int));
        assert(sv.take(k + 1).drop_last() =~= sv.take(k as int));
        assert(ms.take(k + 1).last() == c@);
        assert(sv.take(k + 1)[k as int] == spans_of(st@[k as int]@));
        if st[k].len() > 0 {
            let m = if c.quantifier == Quantifier::Once || c.quantifier == Quantifier::MaybeOnce {
                Found::Once(st[k][0].0, st[k][0].1)
            } else {
                Found::Many(copy_spans(&st[k]))
            };
            r.push((c.name.clone(), m));
            assert(entries_of(r@) =~= entries_of(before).push((c@.name, m@)));
            assert(r@[r.len() - 1] == (c.name, m));
        }
        k = k + 1;
    }
    assert(ms.take(order.len() as int) =~= ms);
    assert(sv.take(order.len() as int) =~= sv);
    r
}

/// Matches a group of captures, standing at segment `i`, from `pos`.
fn match_group(segs: &[Segment], i: usize, cs: &Vec<Capture>, input: &str, s: &Vec<char>, pos: usize) -> (r: Option<(usize, Vec<(String, Found)>)>)
    requires
        s@ == input@,
        pos <= s.len(),
    ensures
        outcome(r) == group_at(segments_model(segs@), i as nat, captures_model(cs@), s@, pos as nat),
        outcome_ok(r, pos as nat, s.len() as nat),
    decreases segs.len() - i, 2int, 0int,
{
    let ghost model = segments_model(segs@);
    let order = order_members(cs);
    let ghost ms = picked(captures_model(cs@), order@);
    let n = order.len();
    let mut st: Vec<Vec<(usize, usize)>> = Vec::new();
    let mut k: usize = 0;
    while k < n
        invariant
            k <= n,
            st.len() == k,
            forall|j: int| 0 <= j < k ==> #[trigger] st@[j]@ == Seq::<(usize, usize)>::empty(),
        decreases n - k,
    {
        st.push(Vec::new());
        k = k + 1;
    }
    assert(state_of(st@) =~= empty_state(ms.len())) by {
        assert forall|j: int| 0 <= j < n implies #[trigger] state_of(st@)[j] =~= empty_state(ms.len())[j] by {
            assert(st@[j]@ == Seq::<(usize, usize)>::empty());
        }
    }
    let ghost st0 = state_of(st@);
    assert(within_limits(ms, st0));
    let mut snap = copy_state(&st);
    assert(state_of(snap@) =~= st0) by {
        assert forall|j: int| 0 <= j < n implies #[trigger] state_of(snap@)[j] == st0[j] by {
            assert(snap@[j]@ == st@[j]@);
        }
    }
    let mut snap_pos = pos;
    let mut cur = pos;
    loop
        invariant
            s@ == input@,
            model == segments_model(segs@),
            ms == picked(captures_model(cs@), order@),
            ms == ordered(captures_model(cs@)),
            forall|j: int| 0 <= j < order.len() ==> #[trigger] order@[j] < cs.len(),
            n == order.len(),
            st.len() == n,
            snap.len() == n,
            within_limits(ms, state_of(st@)),
            pos <= cur <= s.len(),
            pos <= snap_pos <= s.len(),
            state_ok(st@, s.len() as nat),
            state_ok(snap@, s.len() as nat),
            within_limits(ms, st0),
            group_from(model, i as nat, ms, s@, state_of(st@), cur as nat, state_of(snap@), snap_pos as nat)
                == group_from(model, i as nat, ms, s@, st0, pos as nat, st0, pos as nat),
        ensures
            snap.len() == n,
            pos <= snap_pos <= s.len(),
            state_ok(snap@, s.len() as nat),
            group_from(model, i as nat, ms, s@, st0, pos as nat, st0, pos as nat) == if acceptable(ms, state_of(snap@)) {
                Some((snap_pos as nat, state_of(snap@)))
            } else {
                None
            },
        decreases room(ms, state_of(st@)),
    {
        proof {
            lemma_room_nonneg(ms, state_of(st@));
        }
        let ghost sv = state_of(st@);
        let mut found: Option<(usize, usize, usize, usize)> = None;
        let mut j: usize = 0;
        while j < n
            invariant_except_break
                found is None,
            invariant
                s@ == input@,
                ms == picked(captures_model(cs@), order@),
                forall|q: int| 0 <= q < order.len() ==> #[trigger] order@[q] < cs.len(),
                n == order.len(),
                pos <= cur,
                st.len() == n,
                sv == state_of(st@),
                cur <= s.len(),
                j <= n,
                first_member(ms, sv, s@, cur as nat, j as nat) == first_member(ms, sv, s@, cur as nat, 0),
            ensures
                found matches Some((k, a, b, r)) ==> first_member(ms, sv, s@, cur as nat, 0) == Some((k as nat, (a as nat, b as nat, r as nat))) && pos <= a <= b <= r <= s.len() && k < n,
                found is None ==> first_member(ms, sv, s@, cur as nat, 0) is None,
            decreases n - j,
        {
            let c = &cs[order[j]];
            assert(ms[j as int] == c@);
            assert(sv[j as int] == spans_of(st@[j as int]@));
            if st[j].len() < limit_of(c.quantifier) {
                match attempt_capture(c, input, s, cur) {
                    Some((a, b, r)) => {
                        found = Some((j, a, b, r));
                        break;
                    },
                    None => {},
                }
            }
            j = j + 1;
        }
        match found {
            None => {
                break;
            },
            Some((k, a, b, r)) => {
                proof {
                    lemma_first_member(ms, sv, s@, cur as nat, 0);
                    lemma_within_limits_push(ms, sv, k as int, (a as nat, b as nat));
                    lemma_room_update(ms, sv, k as int, (a as nat, b as nat));
                }
                let mut v = copy_spans(&st[k]);
                v.push((a, b));
                let ghost old_st = st@;
                st.set(k, v);
                assert(state_of(st@) =~= sv.update(k as int, sv[k as int].push((a as nat, b as nat)))) by {
                    assert(spans_of(st@[k as int]@) =~= spans_of(old_st[k as int]@).push((a as nat, b as nat)));
                }
                assert(state_ok(st@, s.len() as nat)) by {
                    assert forall|q: int| 0 <= q < st.len() implies spans_ok(#[trigger] st@[q]@, s.len() as nat) by {
                        if q != k {
                            assert(st@[q] == old_st[q]);
                        }
                    }
                }
                assert(room(ms, state_of(st@)) == room(ms, sv) - 1);
                proof {
                    lemma_room_nonneg(ms, state_of(st@));
                }
                cur = r;
                if is_acceptable(cs, &order, &st) && lookahead(segs, i, input, s, r) {
                    snap = copy_state(&st);
                    snap_pos = r;
                    assert(state_of(snap@) =~= state_of(st@)) by {
                        assert forall|q: int| 0 <= q < n implies #[trigger] state_of(snap@)[q] == state_of(st@)[q] by {
                            assert(snap@[q]@ == st@[q]@);
                        }
                    }
                }
            },
        }
    }
    if is_acceptable(cs, &order, &snap) {
        let es = finalize_group(cs, &order, &snap);
        proof {
            assert forall|q: int| 0 <= q < entries_of(es@).len() implies found_ok(#[trigger] entries_of(es@)[q].1, s.len() as nat) by {
                let j = choose|j: int| 0 <= j < snap.len() && snap@[j]@.len() > 0 && (#[trigger] es@[q]).1@ == match es@[q].1@ {
                    SpanMatch::Once(sp) => SpanMatch::Once(spans_of(snap@[j]@)[0]),
                    SpanMatch::Many(_) => SpanMatch::Many(spans_of(snap@[j]@)),
                };
                assert(spans_ok(snap@[j]@, s.len() as nat));
            }
        }
        Some((snap_pos, es))
    } else {
        None
    }
}

} // verus!
