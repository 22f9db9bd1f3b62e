//! Properties of matching and compiling, proved over the model.
use vstd::prelude::*;
use crate::args::{fold_entries, ArgsView, EntryView, MatchView};
use crate::ast::{CaptureModel, PatternModel, Quantifier, SegmentModel};
use crate::parser::command_of;
use crate::compiler::{
    compiled, entry_texts, has_nondeterministic_pair, match_positions, match_view, matched, Compiled,
};
use crate::engine::{
    acceptable, attempt, capture_at, empty_state, finalize, first_member, group_at, group_from,
    lemma_first_member, lemma_room_nonneg, lemma_room_update, lemma_within_limits_push, ordered,
    of_rank, rank, repeat_from, room, run_from, segment_at, within_limits, Entry, Span, SpanMatch,
    MANY_LIMIT,
};
use crate::pattern::{
    eq_at, enclosed_at, ends_only_at, first_pattern_at, pattern_at, starts_only_at, word_at,
};
use crate::text::{
    first_occurrence, lemma_first_occurrence_bounds, lemma_multispace_end_bounds,
    is_multispace, is_ws, lemma_trimmed_end_bounds, lemma_word_end_bounds, lemma_ws_end_bounds,
    multispace_end, starts_at, starts_at_case, trimmed_end, word_end, ws_end,
};

verus! {

/// A hit lies between `pos` and `len`, its span before its rest.
pub open spec fn hit_within(h: Option<(nat, nat, nat)>, pos: nat, len: nat) -> bool {
    h matches Some((a, b, r)) ==> pos <= a <= b <= r <= len
}

proof fn lemma_eq_at_bounds(any_of: Seq<Seq<char>>, no_case: bool, s: Seq<char>, a: nat, i: nat)
    requires
        a <= s.len(),
    ensures
        hit_within(eq_at(any_of, no_case, s, a, i), a, s.len()),
    decreases any_of.len() - i,
{
    if i < any_of.len() && !starts_at_case(s, a, any_of[i as int], no_case) {
        lemma_eq_at_bounds(any_of, no_case, s, a, i + 1);
    }
}

proof fn lemma_ends_only_bounds(ends: Seq<Seq<char>>, reg: Option<Seq<Seq<char>>>, s: Seq<char>, a: nat, i: nat)
    requires
        a <= s.len(),
    ensures
        hit_within(ends_only_at(ends, reg, s, a, i), a, s.len()),
    decreases ends.len() - i,
{
    if i < ends.len() {
        lemma_first_occurrence_bounds(s, a, ends[i as int]);
        lemma_ends_only_bounds(ends, reg, s, a, i + 1);
    }
}

proof fn lemma_starts_only_bounds(
    starts: Seq<Seq<char>>,
    reg: Option<Seq<Seq<char>>>,
    no_case: bool,
    no_trim: bool,
    s: Seq<char>,
    a: nat,
    i: nat,
)
    requires
        a <= s.len(),
    ensures
        hit_within(starts_only_at(starts, reg, no_case, no_trim, s, a, i), a, s.len()),
    decreases starts.len() - i,
{
    if i < starts.len() {
        let body = a + starts[i as int].len();
        if starts_at_case(s, a, starts[i as int], no_case) {
            lemma_word_end_bounds(s, body);
        }
        lemma_starts_only_bounds(starts, reg, no_case, no_trim, s, a, i + 1);
    }
}

proof fn lemma_enclosed_bounds(
    starts: Seq<Seq<char>>,
    ends: Seq<Seq<char>>,
    reg: Option<Seq<Seq<char>>>,
    no_case: bool,
    no_trim: bool,
    s: Seq<char>,
    a: nat,
    i: nat,
    j: nat,
)
    requires
        a <= s.len(),
    ensures
        hit_within(enclosed_at(starts, ends, reg, no_case, no_trim, s, a, i, j), a, s.len()),
    decreases starts.len() - i, ends.len() - j,
{
    if i < starts.len() {
        if j >= ends.len() {
            lemma_enclosed_bounds(starts, ends, reg, no_case, no_trim, s, a, i + 1, 0);
        } else {
            let body = a + starts[i as int].len();
            lemma_enclosed_bounds(starts, ends, reg, no_case, no_trim, s, a, i, j + 1);
            if starts_at_case(s, a, starts[i as int], no_case) && body <= s.len() {
                lemma_first_occurrence_bounds(s, body, ends[j as int]);
                if let Some(q) = first_occurrence(s, body, ends[j as int]) {
                    lemma_trimmed_end_bounds(s, a, q + ends[j as int].len());
                }
            }
        }
    }
}

pub proof fn lemma_pattern_bounds(p: PatternModel, s: Seq<char>, pos: nat)
    requires
        pos <= s.len(),
    ensures
        hit_within(pattern_at(p, s, pos), pos, s.len()),
{
    lemma_multispace_end_bounds(s, pos);
    lemma_ws_end_bounds(s, pos);
    match p {
        PatternModel::Word { reg } => {
            lemma_word_end_bounds(s, multispace_end(s, pos));
        },
        PatternModel::Eq { any_of, no_case } => {
            lemma_eq_at_bounds(any_of, no_case, s, multispace_end(s, pos), 0);
        },
        PatternModel::Delimited { starts, ends, reg, no_case, no_trim } => {
            let a = ws_end(s, pos);
            lemma_ends_only_bounds(ends, reg, s, a, 0);
            lemma_starts_only_bounds(starts, reg, no_case, no_trim, s, a, 0);
            lemma_enclosed_bounds(starts, ends, reg, no_case, no_trim, s, a, 0, 0);
        },
    }
}

proof fn lemma_first_pattern_bounds(ps: Seq<PatternModel>, s: Seq<char>, pos: nat, i: nat)
    requires
        pos <= s.len(),
    ensures
        hit_within(first_pattern_at(ps, s, pos, i), pos, s.len()),
    decreases ps.len() - i,
{
    if i < ps.len() {
        lemma_pattern_bounds(ps[i as int], s, pos);
        lemma_first_pattern_bounds(ps, s, pos, i + 1);
    }
}

pub proof fn lemma_attempt_bounds(c: CaptureModel, s: Seq<char>, pos: nat)
    requires
        pos <= s.len(),
    ensures
        hit_within(attempt(c, s, pos), pos, s.len()),
{
    lemma_multispace_end_bounds(s, pos);
    lemma_word_end_bounds(s, multispace_end(s, pos));
    lemma_first_pattern_bounds(c.patterns, s, pos, 0);
}

proof fn lemma_repeat_bounds(
    segs: Seq<SegmentModel>,
    i: nat,
    c: CaptureModel,
    s: Seq<char>,
    cur: nat,
    vals: Seq<Span>,
    good_pos: nat,
    good_count: nat,
    pos: nat,
)
    requires
        pos <= good_pos <= s.len(),
        pos <= cur <= s.len(),
        1 <= good_count <= vals.len(),
    ensures
        pos <= repeat_from(segs, i, c, s, cur, vals, good_pos, good_count).0 <= s.len(),
        repeat_from(segs, i, c, s, cur, vals, good_pos, good_count).1.len() >= 1,
    decreases MANY_LIMIT - vals.len(),
{
    if vals.len() < MANY_LIMIT {
        lemma_attempt_bounds(c, s, cur);
        if let Some((a, b, r)) = attempt(c, s, cur) {
            let vs = vals.push((a, b));
            lemma_repeat_bounds(segs, i, c, s, r, vs, r, vs.len(), pos);
            lemma_repeat_bounds(segs, i, c, s, r, vs, good_pos, good_count, pos);
        }
    }
}

proof fn lemma_group_bounds(
    segs: Seq<SegmentModel>,
    i: nat,
    ms: Seq<CaptureModel>,
    s: Seq<char>,
    st: Seq<Seq<Span>>,
    cur: nat,
    snap: Seq<Seq<Span>>,
    snap_pos: nat,
    pos: nat,
)
    requires
        within_limits(ms, st),
        pos <= cur <= s.len(),
        pos <= snap_pos <= s.len(),
    ensures
        group_from(segs, i, ms, s, st, cur, snap, snap_pos) matches Some((p, fin)) ==> pos <= p <= s.len(),
    decreases
        room(ms, st),
{
    lemma_first_member(ms, st, s, cur, 0);
    if let Some((k, (a, b, r))) = first_member(ms, st, s, cur, 0) {
        lemma_attempt_bounds(ms[k as int], s, cur);
        let st2 = st.update(k as int, st[k as int].push((a, b)));
        lemma_room_update(ms, st, k as int, (a, b));
        lemma_within_limits_push(ms, st, k as int, (a, b));
        lemma_room_nonneg(ms, st2);
        lemma_group_bounds(segs, i, ms, s, st2, r, st2, r, pos);
        lemma_group_bounds(segs, i, ms, s, st2, r, snap, snap_pos, pos);
    }
}

pub proof fn lemma_empty_state_within_limits(ms: Seq<CaptureModel>)
    ensures
        within_limits(ms, empty_state(ms.len())),
{
}

pub proof fn lemma_segment_bounds(segs: Seq<SegmentModel>, i: nat, s: Seq<char>, pos: nat)
    requires
        pos <= s.len(),
    ensures
        segment_at(segs, i, s, pos) matches Some((p, es)) ==> pos <= p <= s.len(),
{
    if i < segs.len() {
        lemma_multispace_end_bounds(s, pos);
        match segs[i as int] {
            SegmentModel::Text(t) => {},
            SegmentModel::Capture(c) => {
                lemma_attempt_bounds(c, s, pos);
                if let Some((a, b, r)) = attempt(c, s, pos) {
                    lemma_repeat_bounds(segs, i, c, s, r, seq![(a, b)], r, 1, pos);
                }
            },
            SegmentModel::Group(cs) => {
                lemma_empty_state_within_limits(ordered(cs));
                let st0 = empty_state(ordered(cs).len());
                lemma_group_bounds(segs, i, ordered(cs), s, st0, pos, st0, pos, pos);
            },
            SegmentModel::PriorityGroup(cs) => {
                lemma_empty_state_within_limits(ordered(cs));
                let st0 = empty_state(ordered(cs).len());
                lemma_group_bounds(segs, i, ordered(cs), s, st0, pos, st0, pos, pos);
            },
        }
    }
}

pub proof fn lemma_run_bounds(segs: Seq<SegmentModel>, i: nat, s: Seq<char>, pos: nat)
    requires
        pos <= s.len(),
    ensures
        run_from(segs, i, s, pos) matches Some((p, es)) ==> pos <= p <= s.len(),
    decreases segs.len() - i,
{
    if i < segs.len() {
        lemma_segment_bounds(segs, i, s, pos);
        if let Some((r, es)) = segment_at(segs, i, s, pos) {
            lemma_run_bounds(segs, i + 1, s, r);
        }
    }
}

/// After a successful match, the text the segments consumed followed by the
/// rest is the input: the rest is a suffix of the input, nothing trimmed.
pub proof fn law_consumed_then_rest(cmd: Seq<SegmentModel>, input: Seq<char>)
    ensures
        matched(cmd, input) matches Some(a) ==> a.rest.len() <= input.len() && input.take(
            input.len() - a.rest.len(),
        ) + a.rest == input,
{
    if cmd.len() > 0 {
        lemma_run_bounds(cmd, 0, input, 0);
        if let Some((p, es)) = run_from(cmd, 0, input, 0) {
            assert(input.take(p as int) + input.skip(p as int) =~= input);
        }
    }
}

proof fn lemma_group_prefix(
    a_segs: Seq<SegmentModel>,
    b_segs: Seq<SegmentModel>,
    ms: Seq<CaptureModel>,
    s: Seq<char>,
    st: Seq<Seq<Span>>,
    cur: nat,
    snap_a: Seq<Seq<Span>>,
    pos_a: nat,
    snap_b: Seq<Seq<Span>>,
    pos_b: nat,
)
    requires
        within_limits(ms, st),
        b_segs.len() == 1,
        acceptable(ms, snap_a) ==> acceptable(ms, snap_b),
    ensures
        group_from(a_segs, 0, ms, s, st, cur, snap_a, pos_a) is Some ==> group_from(b_segs, 0, ms, s, st, cur, snap_b, pos_b) is Some,
    decreases room(ms, st),
{
    lemma_first_member(ms, st, s, cur, 0);
    if let Some((k, (a, b, r))) = first_member(ms, st, s, cur, 0) {
        let st2 = st.update(k as int, st[k as int].push((a, b)));
        lemma_room_update(ms, st, k as int, (a, b));
        lemma_within_limits_push(ms, st, k as int, (a, b));
        lemma_room_nonneg(ms, st2);
        assert(crate::engine::lookahead_ok(b_segs, 0, s, r));
        let a_snaps = acceptable(ms, st2) && crate::engine::lookahead_ok(a_segs, 0, s, r);
        if acceptable(ms, st2) {
            if a_snaps {
                lemma_group_prefix(a_segs, b_segs, ms, s, st2, r, st2, r, st2, r);
            } else {
                lemma_group_prefix(a_segs, b_segs, ms, s, st2, r, snap_a, pos_a, st2, r);
            }
        } else {
            lemma_group_prefix(a_segs, b_segs, ms, s, st2, r, snap_a, pos_a, snap_b, pos_b);
        }
    }
}

/// If a command matches an input, its first segment alone matches it too,
/// so the prefix test holds of every input the command matches.
pub proof fn law_match_implies_prefix(cmd: Seq<SegmentModel>, input: Seq<char>)
    ensures
        matched(cmd, input) is Some ==> cmd.len() > 0 && match_positions(cmd.take(1), input) is Some,
{
    if cmd.len() > 0 && run_from(cmd, 0, input, 0) is Some {
        let first = cmd.take(1);
        assert(first[0] == cmd[0]);
        assert(segment_at(cmd, 0, input, 0) is Some);
        match cmd[0] {
            SegmentModel::Text(t) => {},
            SegmentModel::Capture(c) => {
                assert(capture_at(cmd, 0, c, input, 0) is Some);
                assert(capture_at(first, 0, c, input, 0) is Some);
            },
            SegmentModel::Group(cs) => {
                lemma_empty_state_within_limits(ordered(cs));
                let st0 = empty_state(ordered(cs).len());
                lemma_group_prefix(cmd, first, ordered(cs), input, st0, 0, st0, 0, st0, 0);
            },
            SegmentModel::PriorityGroup(cs) => {
                lemma_empty_state_within_limits(ordered(cs));
                let st0 = empty_state(ordered(cs).len());
                lemma_group_prefix(cmd, first, ordered(cs), input, st0, 0, st0, 0, st0, 0);
            },
        }
        assert(segment_at(first, 0, input, 0) is Some);
        let (r, es) = segment_at(first, 0, input, 0)->0;
        assert(run_from(first, 1, input, r) is Some);
    }
}

/// Capture `c` stands in segment `seg`, alone or in a group.
pub open spec fn in_segment(seg: SegmentModel, c: CaptureModel) -> bool {
    match seg {
        SegmentModel::Text(_) => false,
        SegmentModel::Capture(d) => d == c,
        SegmentModel::Group(cs) => cs.contains(c),
        SegmentModel::PriorityGroup(cs) => cs.contains(c),
    }
}

/// Capture `c` stands in the command.
pub open spec fn in_command(cmd: Seq<SegmentModel>, c: CaptureModel) -> bool {
    exists|i: int| 0 <= i < cmd.len() && in_segment(#[trigger] cmd[i], c)
}

/// `Once` for a quantifier that matches at most once; a non-empty `Many` otherwise.
pub open spec fn shape_fits(q: Quantifier, m: MatchView) -> bool {
    if q == Quantifier::Once || q == Quantifier::MaybeOnce {
        m is Once
    } else {
        m matches MatchView::Many(v) && v.len() >= 1
    }
}

pub open spec fn span_shape_fits(q: Quantifier, m: SpanMatch) -> bool {
    if q == Quantifier::Once || q == Quantifier::MaybeOnce {
        m is Once
    } else {
        m matches SpanMatch::Many(v) && v.len() >= 1
    }
}

/// An entry that one of the captures `ms` can have produced.
pub open spec fn entry_from_list(ms: Seq<CaptureModel>, e: Entry) -> bool {
    exists|c: CaptureModel| #[trigger] ms.contains(c) && c.name == e.0 && span_shape_fits(c.quantifier, e.1)
}

/// An entry that a capture of the command can have produced.
pub open spec fn entry_from_command(cmd: Seq<SegmentModel>, e: Entry) -> bool {
    exists|c: CaptureModel| #[trigger] in_command(cmd, c) && c.name == e.0 && span_shape_fits(c.quantifier, e.1)
}

proof fn lemma_concat_contains<A>(a: Seq<A>, b: Seq<A>, x: A)
    requires
        (a + b).contains(x),
    ensures
        a.contains(x) || b.contains(x),
{
    let w = choose|w: int| 0 <= w < (a + b).len() && (a + b)[w] == x;
    if w < a.len() {
        assert(a[w] == x);
    } else {
        assert(b[w - a.len()] == x);
    }
}

proof fn lemma_ordered_contains(cs: Seq<CaptureModel>, c: CaptureModel)
    requires
        ordered(cs).contains(c),
    ensures
        cs.contains(c),
{
    let p0 = of_rank(cs, 0);
    let p1 = of_rank(cs, 1);
    let p2 = of_rank(cs, 2);
    let p3 = of_rank(cs, 3);
    let p4 = of_rank(cs, 4);
    lemma_concat_contains(p0 + p1 + p2 + p3, p4, c);
    if (p0 + p1 + p2 + p3).contains(c) {
        lemma_concat_contains(p0 + p1 + p2, p3, c);
        if (p0 + p1 + p2).contains(c) {
            lemma_concat_contains(p0 + p1, p2, c);
            if (p0 + p1).contains(c) {
                lemma_concat_contains(p0, p1, c);
            }
        }
    }
    if p0.contains(c) {
        cs.lemma_filter_contains_rev(|m: CaptureModel| rank(m) == 0, c);
    } else if p1.contains(c) {
        cs.lemma_filter_contains_rev(|m: CaptureModel| rank(m) == 1, c);
    } else if p2.contains(c) {
        cs.lemma_filter_contains_rev(|m: CaptureModel| rank(m) == 2, c);
    } else if p3.contains(c) {
        cs.lemma_filter_contains_rev(|m: CaptureModel| rank(m) == 3, c);
    } else {
        cs.lemma_filter_contains_rev(|m: CaptureModel| rank(m) == 4, c);
    }
}

proof fn lemma_finalize_shapes(ms: Seq<CaptureModel>, st: Seq<Seq<Span>>)
    requires
        st.len() == ms.len(),
    ensures
        forall|k: int| 0 <= k < finalize(ms, st).len() ==> entry_from_list(ms, #[trigger] finalize(ms, st)[k]),
    decreases ms.len(),
{
    if ms.len() > 0 {
        let prev = finalize(ms.drop_last(), st.drop_last());
        lemma_finalize_shapes(ms.drop_last(), st.drop_last());
        let c = ms.last();
        assert(ms.contains(c)) by {
            assert(ms[ms.len() - 1] == c);
        }
        assert forall|k: int| 0 <= k < finalize(ms, st).len() implies entry_from_list(ms, #[trigger] finalize(ms, st)[k]) by {
            if k < prev.len() {
                assert(finalize(ms, st)[k] == prev[k]);
                assert(entry_from_list(ms.drop_last(), prev[k]));
                let d = choose|d: CaptureModel| #[trigger] ms.drop_last().contains(d) && d.name == prev[k].0 && span_shape_fits(d.quantifier, prev[k].1);
                let w = choose|w: int| 0 <= w < ms.drop_last().len() && ms.drop_last()[w] == d;
                assert(ms[w] == d);
                assert(ms.contains(d));
            } else {
                assert(ms.contains(c));
            }
        }
    }
}

proof fn lemma_group_state_len(
    segs: Seq<SegmentModel>,
    i: nat,
    ms: Seq<CaptureModel>,
    s: Seq<char>,
    st: Seq<Seq<Span>>,
    cur: nat,
    snap: Seq<Seq<Span>>,
    snap_pos: nat,
)
    requires
        within_limits(ms, st),
        snap.len() == ms.len(),
    ensures
        group_from(segs, i, ms, s, st, cur, snap, snap_pos) matches Some((p, fin)) ==> fin.len() == ms.len(),
    decreases room(ms, st),
{
    lemma_first_member(ms, st, s, cur, 0);
    if let Some((k, (a, b, r))) = first_member(ms, st, s, cur, 0) {
        let st2 = st.update(k as int, st[k as int].push((a, b)));
        lemma_room_update(ms, st, k as int, (a, b));
        lemma_within_limits_push(ms, st, k as int, (a, b));
        lemma_room_nonneg(ms, st2);
        lemma_group_state_len(segs, i, ms, s, st2, r, st2, r);
        lemma_group_state_len(segs, i, ms, s, st2, r, snap, snap_pos);
    }
}

proof fn lemma_segment_shapes(segs: Seq<SegmentModel>, i: nat, s: Seq<char>, pos: nat)
    requires
        pos <= s.len(),
    ensures
        segment_at(segs, i, s, pos) matches Some((r, es)) ==> forall|k: int| 0 <= k < es.len() ==> entry_from_command(segs, #[trigger] es[k]),
{
    if i < segs.len() {
        let seg = segs[i as int];
        match seg {
            SegmentModel::Text(t) => {},
            SegmentModel::Capture(c) => {
                lemma_attempt_bounds(c, s, pos);
                if let Some((a, b, r)) = attempt(c, s, pos) {
                    lemma_repeat_bounds(segs, i, c, s, r, seq![(a, b)], r, 1, pos);
                }
                if let Some((r, es)) = segment_at(segs, i, s, pos) {
                    assert forall|k: int| 0 <= k < es.len() implies entry_from_command(segs, #[trigger] es[k]) by {
                        assert(in_segment(segs[i as int], c));
                        assert(in_command(segs, c));
                    }
                }
            },
            SegmentModel::Group(cs) => {
                lemma_group_shapes(segs, i, cs, s, pos);
            },
            SegmentModel::PriorityGroup(cs) => {
                lemma_group_shapes(segs, i, cs, s, pos);
            },
        }
    }
}

proof fn lemma_group_shapes(segs: Seq<SegmentModel>, i: nat, cs: Seq<CaptureModel>, s: Seq<char>, pos: nat)
    requires
        i < segs.len(),
        segs[i as int] == SegmentModel::Group(cs) || segs[i as int] == SegmentModel::PriorityGroup(cs),
    ensures
        group_at(segs, i, cs, s, pos) matches Some((r, es)) ==> forall|k: int| 0 <= k < es.len() ==> entry_from_command(segs, #[trigger] es[k]),
{
    let ms = ordered(cs);
    lemma_empty_state_within_limits(ms);
    let st0 = empty_state(ms.len());
    lemma_group_state_len(segs, i, ms, s, st0, pos, st0, pos);
    if let Some((r, fin)) = group_from(segs, i, ms, s, st0, pos, st0, pos) {
        lemma_finalize_shapes(ms, fin);
        let es = finalize(ms, fin);
        assert forall|k: int| 0 <= k < es.len() implies entry_from_command(segs, #[trigger] es[k]) by {
            assert(entry_from_list(ms, es[k]));
            let d = choose|d: CaptureModel| #[trigger] ms.contains(d) && d.name == es[k].0 && span_shape_fits(d.quantifier, es[k].1);
            lemma_ordered_contains(cs, d);
            assert(in_segment(segs[i as int], d));
            assert(in_command(segs, d));
        }
    }
}

proof fn lemma_run_shapes(segs: Seq<SegmentModel>, i: nat, s: Seq<char>, pos: nat)
    requires
        pos <= s.len(),
    ensures
        run_from(segs, i, s, pos) matches Some((r, es)) ==> forall|k: int| 0 <= k < es.len() ==> entry_from_command(segs, #[trigger] es[k]),
    decreases segs.len() - i,
{
    if i < segs.len() {
        lemma_segment_shapes(segs, i, s, pos);
        lemma_segment_bounds(segs, i, s, pos);
        if let Some((r, es)) = segment_at(segs, i, s, pos) {
            lemma_run_shapes(segs, i + 1, s, r);
            if let Some((r2, es2)) = run_from(segs, i + 1, s, r) {
                assert forall|k: int| 0 <= k < (es + es2).len() implies entry_from_command(segs, #[trigger] (es + es2)[k]) by {
                    if k < es.len() {
                        assert((es + es2)[k] == es[k]);
                    } else {
                        assert((es + es2)[k] == es2[k - es.len()]);
                    }
                }
            }
        }
    }
}

proof fn lemma_fold_lookup(evs: Seq<EntryView>, n: Seq<char>)
    requires
        fold_entries(evs).contains_key(n),
    ensures
        exists|k: int| 0 <= k < evs.len() && (#[trigger] evs[k]).0 == n && evs[k].1 == fold_entries(evs)[n],
    decreases evs.len(),
{
    if evs.last().0 == n {
        assert(evs[evs.len() - 1].0 == n);
    } else {
        lemma_fold_lookup(evs.drop_last(), n);
        let k = choose|k: int| 0 <= k < evs.drop_last().len() && (#[trigger] evs.drop_last()[k]).0 == n && evs.drop_last()[k].1 == fold_entries(evs.drop_last())[n];
        assert(evs[k] == evs.drop_last()[k]);
    }
}

/// Every capture in a match result has the shape of a capture of the command
/// with that name: `Once` for no quantifier or `?`, a non-empty `Many` for
/// `*` and `+`.
pub proof fn law_result_shapes(cmd: Seq<SegmentModel>, input: Seq<char>)
    ensures
        matched(cmd, input) matches Some(a) ==> forall|name: Seq<char>| #[trigger] a.captures.contains_key(name)
            ==> exists|c: CaptureModel| #[trigger] in_command(cmd, c) && c.name == name && shape_fits(c.quantifier, a.captures[name]),
{
    if let Some(a) = matched(cmd, input) {
        let (p, es) = run_from(cmd, 0, input, 0)->0;
        lemma_run_shapes(cmd, 0, input, 0);
        let evs = entry_texts(input, es);
        assert forall|name: Seq<char>| #[trigger] a.captures.contains_key(name) implies exists|c: CaptureModel|
            #[trigger] in_command(cmd, c) && c.name == name && shape_fits(c.quantifier, a.captures[name]) by {
            lemma_fold_lookup(evs, name);
            let k = choose|k: int| 0 <= k < evs.len() && (#[trigger] evs[k]).0 == name && evs[k].1 == fold_entries(evs)[name];
            assert(entry_from_command(cmd, es[k]));
            let c = choose|c: CaptureModel| #[trigger] in_command(cmd, c) && c.name == es[k].0 && span_shape_fits(c.quantifier, es[k].1);
            assert(evs[k] == (es[k].0, match_view(input, es[k].1)));
            assert(in_command(cmd, c));
        }
    }
}

proof fn lemma_pattern_skip(p: PatternModel, s: Seq<char>, pos: nat)
    requires
        pos < s.len(),
        is_multispace(s[pos as int]),
    ensures
        pattern_at(p, s, pos) == pattern_at(p, s, pos + 1),
{
    assert(multispace_end(s, pos) == multispace_end(s, pos + 1));
    assert(is_ws(s[pos as int]));
    assert(ws_end(s, pos) == ws_end(s, pos + 1));
}

proof fn lemma_first_pattern_skip(ps: Seq<PatternModel>, s: Seq<char>, pos: nat, i: nat)
    requires
        pos < s.len(),
        is_multispace(s[pos as int]),
    ensures
        first_pattern_at(ps, s, pos, i) == first_pattern_at(ps, s, pos + 1, i),
    decreases ps.len() - i,
{
    if i < ps.len() {
        lemma_pattern_skip(ps[i as int], s, pos);
        lemma_first_pattern_skip(ps, s, pos, i + 1);
    }
}

proof fn lemma_attempt_skip(c: CaptureModel, s: Seq<char>, pos: nat)
    requires
        pos < s.len(),
        is_multispace(s[pos as int]),
    ensures
        attempt(c, s, pos) == attempt(c, s, pos + 1),
{
    assert(multispace_end(s, pos) == multispace_end(s, pos + 1));
    lemma_first_pattern_skip(c.patterns, s, pos, 0);
}

proof fn lemma_first_member_skip(ms: Seq<CaptureModel>, st: Seq<Seq<Span>>, s: Seq<char>, pos: nat, j: nat)
    requires
        pos < s.len(),
        is_multispace(s[pos as int]),
    ensures
        first_member(ms, st, s, pos, j) == first_member(ms, st, s, pos + 1, j),
    decreases ms.len() - j,
{
    if j < ms.len() {
        lemma_attempt_skip(ms[j as int], s, pos);
        lemma_first_member_skip(ms, st, s, pos, j + 1);
    }
}

/// Two runs of the resolver that differ only in the position of their
/// snapshot end alike, but for that position.
proof fn lemma_group_snap_pos(
    segs: Seq<SegmentModel>,
    i: nat,
    ms: Seq<CaptureModel>,
    s: Seq<char>,
    st: Seq<Seq<Span>>,
    cur: nat,
    snap: Seq<Seq<Span>>,
    p1: nat,
    p2: nat,
)
    requires
        within_limits(ms, st),
    ensures
        group_from(segs, i, ms, s, st, cur, snap, p1) is Some <==> group_from(segs, i, ms, s, st, cur, snap, p2) is Some,
        group_from(segs, i, ms, s, st, cur, snap, p1) matches Some((r1, f1)) ==> group_from(segs, i, ms, s, st, cur, snap, p2) matches Some((r2, f2))
            && f1 == f2 && (r1 == r2 || (r1 == p1 && r2 == p2)),
    decreases room(ms, st),
{
    lemma_first_member(ms, st, s, cur, 0);
    if let Some((k, (a, b, r))) = first_member(ms, st, s, cur, 0) {
        let st2 = st.update(k as int, st[k as int].push((a, b)));
        lemma_room_update(ms, st, k as int, (a, b));
        lemma_within_limits_push(ms, st, k as int, (a, b));
        lemma_room_nonneg(ms, st2);
        lemma_group_snap_pos(segs, i, ms, s, st2, r, snap, p1, p2);
    }
}

proof fn lemma_segment_skip(segs: Seq<SegmentModel>, i: nat, s: Seq<char>, pos: nat)
    requires
        pos < s.len(),
        is_multispace(s[pos as int]),
    ensures
        segment_at(segs, i, s, pos) is Some <==> segment_at(segs, i, s, pos + 1) is Some,
        segment_at(segs, i, s, pos) matches Some((r1, e1)) ==> segment_at(segs, i, s, pos + 1) matches Some((r2, e2))
            && e1 == e2 && (r1 == r2 || (r1 == pos && r2 == pos + 1)),
{
    assert(multispace_end(s, pos) == multispace_end(s, pos + 1));
    if i < segs.len() {
        match segs[i as int] {
            SegmentModel::Text(t) => {},
            SegmentModel::Capture(c) => {
                lemma_attempt_skip(c, s, pos);
            },
            SegmentModel::Group(cs) => {
                lemma_group_skip(segs, i, cs, s, pos);
            },
            SegmentModel::PriorityGroup(cs) => {
                lemma_group_skip(segs, i, cs, s, pos);
            },
        }
    }
}

proof fn lemma_group_skip(segs: Seq<SegmentModel>, i: nat, cs: Seq<CaptureModel>, s: Seq<char>, pos: nat)
    requires
        pos < s.len(),
        is_multispace(s[pos as int]),
    ensures
        group_at(segs, i, cs, s, pos) is Some <==> group_at(segs, i, cs, s, pos + 1) is Some,
        group_at(segs, i, cs, s, pos) matches Some((r1, e1)) ==> group_at(segs, i, cs, s, pos + 1) matches Some((r2, e2))
            && e1 == e2 && (r1 == r2 || (r1 == pos && r2 == pos + 1)),
{
    let ms = ordered(cs);
    lemma_empty_state_within_limits(ms);
    let st0 = empty_state(ms.len());
    lemma_first_member_skip(ms, st0, s, pos, 0);
    lemma_first_member(ms, st0, s, pos, 0);
    if let Some((k, (a, b, r))) = first_member(ms, st0, s, pos, 0) {
        let st2 = st0.update(k as int, st0[k as int].push((a, b)));
        lemma_room_update(ms, st0, k as int, (a, b));
        lemma_within_limits_push(ms, st0, k as int, (a, b));
        lemma_room_nonneg(ms, st0);
        lemma_room_nonneg(ms, st2);
        lemma_group_snap_pos(segs, i, ms, s, st2, r, st0, pos, pos + 1);
        assert(group_from(segs, i, ms, s, st0, pos, st0, pos) == if acceptable(ms, st2) && crate::engine::lookahead_ok(segs, i, s, r) {
            group_from(segs, i, ms, s, st2, r, st2, r)
        } else {
            group_from(segs, i, ms, s, st2, r, st0, pos)
        });
        assert(group_from(segs, i, ms, s, st0, pos + 1, st0, pos + 1) == if acceptable(ms, st2) && crate::engine::lookahead_ok(segs, i, s, r) {
            group_from(segs, i, ms, s, st2, r, st2, r)
        } else {
            group_from(segs, i, ms, s, st2, r, st0, pos + 1)
        });
    }
}

proof fn lemma_run_skip(segs: Seq<SegmentModel>, i: nat, s: Seq<char>, pos: nat)
    requires
        pos < s.len(),
        is_multispace(s[pos as int]),
    ensures
        run_from(segs, i, s, pos) is Some <==> run_from(segs, i, s, pos + 1) is Some,
        run_from(segs, i, s, pos) matches Some((r1, e1)) ==> run_from(segs, i, s, pos + 1) matches Some((r2, e2))
            && e1 == e2 && (r1 == r2 || (r1 == pos && r2 == pos + 1)),
    decreases segs.len() - i,
{
    if i < segs.len() {
        lemma_segment_skip(segs, i, s, pos);
        lemma_run_skip(segs, i + 1, s, pos);
    }
}

/// Whitespace before a segment can be skipped: matching the segments from a
/// space, tab, carriage return or line feed succeeds exactly when matching
/// from the next character does, with the same captures, and with the same
/// rest unless nothing at all was consumed.
pub proof fn law_leading_whitespace(cmd: Seq<SegmentModel>, input: Seq<char>, pos: nat)
    requires
        pos < input.len(),
        is_multispace(input[pos as int]),
    ensures
        run_from(cmd, 0, input, pos) is Some <==> run_from(cmd, 0, input, pos + 1) is Some,
        run_from(cmd, 0, input, pos) matches Some((r1, e1)) ==> run_from(cmd, 0, input, pos + 1) matches Some((r2, e2))
            && e1 == e2 && (r1 == r2 || (r1 == pos && r2 == pos + 1)),
{
    lemma_run_skip(cmd, 0, input, pos);
}

proof fn lemma_starts_only_notrim(
    starts: Seq<Seq<char>>,
    reg: Option<Seq<Seq<char>>>,
    no_case: bool,
    s: Seq<char>,
    a: nat,
    i: nat,
)
    ensures
        starts_only_at(starts, reg, no_case, true, s, a, i) matches Some((x, y, z)) ==> x == a && y == z,
    decreases starts.len() - i,
{
    if i < starts.len() {
        lemma_starts_only_notrim(starts, reg, no_case, s, a, i + 1);
    }
}

proof fn lemma_enclosed_notrim(
    starts: Seq<Seq<char>>,
    ends: Seq<Seq<char>>,
    reg: Option<Seq<Seq<char>>>,
    no_case: bool,
    s: Seq<char>,
    a: nat,
    i: nat,
    j: nat,
)
    requires
        forall|k: int| 0 <= k < ends.len() ==> #[trigger] ends[k].len() > 0 && !is_ws(ends[k].last()),
    ensures
        enclosed_at(starts, ends, reg, no_case, true, s, a, i, j) matches Some((x, y, z)) ==> x == a && y == z,
    decreases starts.len() - i, ends.len() - j,
{
    if i < starts.len() {
        if j >= ends.len() {
            lemma_enclosed_notrim(starts, ends, reg, no_case, s, a, i + 1, 0);
        } else {
            lemma_enclosed_notrim(starts, ends, reg, no_case, s, a, i, j + 1);
            let body = a + starts[i as int].len();
            let e = ends[j as int];
            if starts_at_case(s, a, starts[i as int], no_case) && body <= s.len() {
                lemma_first_occurrence_bounds(s, body, e);
                if let Some(q) = first_occurrence(s, body, e) {
                    let r = q + e.len();
                    assert(e.len() > 0 && !is_ws(e.last()));
                    assert(s.subrange(q as int, r as int)[e.len() - 1] == e[e.len() - 1]);
                    assert(s[r - 1] == e.last());
                    assert(trimmed_end(s, a, r) == r);
                }
            }
        }
    }
}

/// With `notrim`, what a `starts` pattern (or a `starts`/`ends` pattern whose
/// end delimiters do not end in whitespace) captures, followed by the rest,
/// is the input from where the capture starts, after leading whitespace.
pub proof fn law_notrim_capture_then_rest(
    starts: Seq<Seq<char>>,
    ends: Seq<Seq<char>>,
    reg: Option<Seq<Seq<char>>>,
    no_case: bool,
    input: Seq<char>,
    pos: nat,
)
    requires
        pos <= input.len(),
        starts.len() > 0,
        forall|k: int| 0 <= k < ends.len() ==> #[trigger] ends[k].len() > 0 && !is_ws(ends[k].last()),
    ensures
        pattern_at(PatternModel::Delimited { starts, ends, reg, no_case, no_trim: true }, input, pos) matches Some((a, b, r))
            ==> a == ws_end(input, pos) && input.subrange(a as int, b as int) + input.skip(r as int) == input.skip(a as int),
{
    let a0 = ws_end(input, pos);
    lemma_ws_end_bounds(input, pos);
    lemma_pattern_bounds(PatternModel::Delimited { starts, ends, reg, no_case, no_trim: true }, input, pos);
    lemma_starts_only_notrim(starts, reg, no_case, input, a0, 0);
    lemma_enclosed_notrim(starts, ends, reg, no_case, input, a0, 0, 0);
    if let Some((a, b, r)) = pattern_at(PatternModel::Delimited { starts, ends, reg, no_case, no_trim: true }, input, pos) {
        assert(input.subrange(a as int, b as int) + input.skip(r as int) =~= input.skip(a as int));
    }
}

/// Compiling never yields a command with two neighbouring non-deterministic
/// segments, and a template that would is rejected by the rule.
pub proof fn law_compile_rejects_nondeterministic_pairs(template: Seq<char>)
    ensures
        compiled(template) matches Compiled::Commands(segs) ==> !has_nondeterministic_pair(segs),
        (command_of(template) matches Ok(sv) && crate::compiler::segments_of(sv) matches Ok(segs)
            && has_nondeterministic_pair(segs)) ==> compiled(template) == Compiled::Rule,
{
}

/// Matching is a function of the command and the input alone.
pub proof fn law_match_is_pure(cmd1: Seq<SegmentModel>, cmd2: Seq<SegmentModel>, input1: Seq<char>, input2: Seq<char>)
    requires
        cmd1 == cmd2,
        input1 == input2,
    ensures
        matched(cmd1, input1) == matched(cmd2, input2),
{
}

} // verus!
