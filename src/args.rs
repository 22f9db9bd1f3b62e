//! What a match yields: the captures by name and the unmatched rest.
use vstd::prelude::*;
use crate::text::same_text;

verus! {

/// The model of a [`Match`].
pub enum MatchView {
    Once(Seq<char>),
    Many(Seq<Seq<char>>),
}

/// What one capture matched. The lifetime `'a` is that of the matched text.
#[derive(Eq, PartialEq, Clone, Debug, Hash)]
pub enum Match<'a> {
    /// For a capture with no quantifier or the `?` quantifier.
    Once(&'a str),
    /// For a capture with the `*` or `+` quantifier that matched at least once.
    Many(Vec<&'a str>),
}

pub open spec fn str_views(v: Seq<&str>) -> Seq<Seq<char>> {
    v.map_values(|x: &str| x@)
}

impl<'a> View for Match<'a> {
    type V = MatchView;

    open spec fn view(&self) -> MatchView {
        match self {
            Match::Once(s) => MatchView::Once(s@),
            Match::Many(v) => MatchView::Many(str_views(v@)),
        }
    }
}

impl<'a> Match<'a> {
    /// The values if `self` is `Many`.
    pub fn many(self) -> (r: Option<Vec<&'a str>>)
        ensures
            match self {
                Match::Many(v) => r == Some(v),
                Match::Once(_) => r is None,
            },
    {
        match self {
            Match::Many(v) => Some(v),
            Match::Once(_) => None,
        }
    }

    /// The value if `self` is `Once`.
    pub fn once(self) -> (r: Option<&'a str>)
        ensures
            match self {
                Match::Once(s) => r == Some(s),
                Match::Many(_) => r is None,
            },
    {
        match self {
            Match::Once(s) => Some(s),
            Match::Many(_) => None,
        }
    }

    /// The values in order: one for `Once`, all of them for `Many`.
    pub fn values(&self) -> (r: Vec<&'a str>)
        ensures
            r@ == match self {
                Match::Once(s) => seq![*s],
                Match::Many(v) => v@,
            },
    {
        match self {
            Match::Once(s) => {
                let mut v: Vec<&'a str> = Vec::new();
                v.push(*s);
                v
            },
            Match::Many(v) => {
                let mut r: Vec<&'a str> = Vec::new();
                let mut k: usize = 0;
                while k < v.len()
                    invariant
                        k <= v.len(),
                        r@ == v@.take(k as int),
                    decreases v.len() - k,
                {
                    r.push(v[k]);
                    assert(r@ =~= v@.take(k + 1));
                    k = k + 1;
                }
                assert(r@ =~= v@);
                r
            },
        }
    }

    /// A cursor over the values of `self`.
    pub fn iter(&'a self) -> (r: Iter<'a>)
        ensures
            r.matched() == self,
            r.position() == 0,
    {
        Iter { m: self, idx: 0 }
    }
}

/// The values of a [`Match`], in order.
pub open spec fn match_values<'a>(m: &Match<'a>) -> Seq<&'a str> {
    match m {
        Match::Once(s) => seq![*s],
        Match::Many(v) => v@,
    }
}

/// A cursor over the values of a [`Match`].
pub struct Iter<'a> {
    m: &'a Match<'a>,
    idx: usize,
}

impl<'a> Iter<'a> {
    pub closed spec fn matched(&self) -> &'a Match<'a> {
        self.m
    }

    /// How many values were handed out.
    pub closed spec fn position(&self) -> nat {
        self.idx as nat
    }

    /// The next value, if any is left.
    pub fn next(&mut self) -> (r: Option<&'a str>)
        requires
            old(self).position() <= match_values(old(self).matched()).len(),
        ensures
            final(self).matched() == old(self).matched(),
            final(self).position() <= match_values(final(self).matched()).len(),
            old(self).position() < match_values(old(self).matched()).len() ==> r == Some(
                match_values(old(self).matched())[old(self).position() as int],
            ) && final(self).position() == old(self).position() + 1,
            old(self).position() == match_values(old(self).matched()).len() ==> r is None
                && final(self).position() == old(self).position(),
    {
        let o = match self.m {
            Match::Once(s) => if self.idx == 0 {
                Some(*s)
            } else {
                None
            },
            Match::Many(v) => if self.idx < v.len() {
                Some(v[self.idx])
            } else {
                None
            },
        };
        if o.is_some() {
            self.idx = self.idx + 1;
        }
        o
    }
}

/// A name with what it matched.
pub type EntryView = (Seq<char>, MatchView);

/// The captures a list of entries gives: a later entry for a name replaces an
/// earlier one.
pub open spec fn fold_entries(es: Seq<EntryView>) -> Map<Seq<char>, MatchView>
    decreases es.len(),
{
    if es.len() == 0 {
        Map::empty()
    } else {
        fold_entries(es.drop_last()).insert(es.last().0, es.last().1)
    }
}

pub open spec fn entry_views<'t>(v: Seq<(String, Match<'t>)>) -> Seq<EntryView> {
    v.map_values(|e: (String, Match<'t>)| (e.0@, e.1@))
}

/// The result of a successful match.
#[derive(PartialEq, Eq, Clone, Debug)]
pub struct Args<'t> {
    /// The trailing part of the text that no segment consumed; no whitespace
    /// is trimmed from it.
    pub rest: &'t str,
    vals: Vec<(String, Match<'t>)>,
}

proof fn lemma_fold_take(es: Seq<EntryView>, i: int)
    requires
        0 < i <= es.len(),
    ensures
        fold_entries(es.take(i)) == fold_entries(es.take(i - 1)).insert(es[i - 1].0, es[i - 1].1),
{
    assert(es.take(i).drop_last() =~= es.take(i - 1));
}

/// The model of [`Args`]: the unmatched rest and the captures by name.
pub struct ArgsView {
    pub rest: Seq<char>,
    pub captures: Map<Seq<char>, MatchView>,
}

impl<'t> View for Args<'t> {
    type V = ArgsView;

    closed spec fn view(&self) -> ArgsView {
        ArgsView { rest: self.rest@, captures: fold_entries(entry_views(self.vals@)) }
    }
}

impl<'t> Args<'t> {

    /// Builds the result of a match from its rest and its entries in the
    /// order they were matched.
    pub fn from_entries(rest: &'t str, vals: Vec<(String, Match<'t>)>) -> (r: Args<'t>)
        ensures
            r@ == (ArgsView { rest: rest@, captures: fold_entries(entry_views(vals@)) }),
    {
        Args { rest, vals }
    }

    fn find(&self, name: &str) -> (r: Option<usize>)
        ensures
            match r {
                Some(i) => i < self.vals.len() && self@.captures.contains_key(name@)
                    && self@.captures[name@] == self.vals@[i as int].1@,
                None => !self@.captures.contains_key(name@),
            },
    {
        let ghost ev = entry_views(self.vals@);
        let mut i = self.vals.len();
        assert(ev.take(i as int) =~= ev);
        while i > 0
            invariant
                i <= self.vals.len(),
                ev == entry_views(self.vals@),
                fold_entries(ev.take(i as int)).contains_key(name@) == fold_entries(ev).contains_key(name@),
                fold_entries(ev.take(i as int)).contains_key(name@) ==> fold_entries(ev.take(i as int))[name@]
                    == fold_entries(ev)[name@],
            decreases i,
        {
            proof {
                lemma_fold_take(ev, i as int);
            }
            if same_text(self.vals[i - 1].0.as_str(), name) {
                return Some(i - 1);
            }
            i = i - 1;
        }
        assert(ev.take(0) =~= Seq::<EntryView>::empty());
        None
    }

    /// What the capture `name` matched, if it did.
    pub fn get(&self, name: &str) -> (r: Option<&Match<'t>>)
        ensures
            match r {
                Some(m) => self@.captures.contains_key(name@) && self@.captures[name@] == m@,
                None => !self@.captures.contains_key(name@),
            },
    {
        match self.find(name) {
            Some(i) => Some(&self.vals[i].1),
            None => None,
        }
    }

    /// The text of `name` if it matched and matches at most once (no
    /// quantifier or `?`).
    pub fn get_once(&self, name: &str) -> (r: Option<&'t str>)
        ensures
            match r {
                Some(s) => self@.captures.contains_key(name@) && self@.captures[name@] == MatchView::Once(s@),
                None => !(self@.captures.contains_key(name@) && self@.captures[name@] is Once),
            },
    {
        match self.get(name) {
            Some(Match::Once(s)) => Some(*s),
            _ => None,
        }
    }

    /// The texts of `name` if it matched and can match many times (`*` or `+`).
    pub fn get_many(&self, name: &str) -> (r: Option<&Vec<&'t str>>)
        ensures
            match r {
                Some(v) => self@.captures.contains_key(name@) && self@.captures[name@] == MatchView::Many(str_views(v@)),
                None => !(self@.captures.contains_key(name@) && self@.captures[name@] is Many),
            },
    {
        match self.get(name) {
            Some(Match::Many(v)) => Some(v),
            _ => None,
        }
    }

    /// Whether `name` matched.
    pub fn is_present(&self, name: &str) -> (r: bool)
        ensures
            r == self@.captures.contains_key(name@),
    {
        self.get(name).is_some()
    }

    /// All entries, in the order they were matched; a later entry for a name
    /// replaces an earlier one.
    pub fn into_matches(self) -> (r: Vec<(String, Match<'t>)>)
        ensures
            fold_entries(entry_views(r@)) == self@.captures,
    {
        self.vals
    }

    /// Removes the capture `name` and hands back what it matched.
    pub fn take(&mut self, name: &str) -> (r: Option<Match<'t>>)
        ensures
            final(self)@.rest == old(self)@.rest,
            final(self)@.captures == old(self)@.captures.remove(name@),
            match r {
                Some(m) => old(self)@.captures.contains_key(name@) && old(self)@.captures[name@] == m@,
                None => !old(self)@.captures.contains_key(name@),
            },
    {
        let mut rest_vals: Vec<(String, Match<'t>)> = Vec::new();
        std::mem::swap(&mut rest_vals, &mut self.vals);
        let ghost orig = rest_vals@;
        let ghost ev = entry_views(orig);
        let n = rest_vals.len();
        let mut found: Option<Match<'t>> = None;
        let mut j: usize = 0;
        assert(ev.take(0) =~= Seq::<EntryView>::empty());
        assert(entry_views(self.vals@) =~= Seq::<EntryView>::empty());
        assert(fold_entries(ev.take(0)).remove(name@) =~= Map::<Seq<char>, MatchView>::empty());
        while rest_vals.len() > 0
            invariant
                ev == entry_views(orig),
                self.rest == old(self).rest,
                j + rest_vals.len() == orig.len(),
                orig.len() == n,
                rest_vals@ == orig.skip(j as int),
                fold_entries(entry_views(self.vals@)) == fold_entries(ev.take(j as int)).remove(name@),
                match found {
                    Some(m) => fold_entries(ev.take(j as int)).contains_key(name@)
                        && fold_entries(ev.take(j as int))[name@] == m@,
                    None => !fold_entries(ev.take(j as int)).contains_key(name@),
                },
            decreases rest_vals.len(),
        {
            let e = rest_vals.remove(0);
            assert(e == orig[j as int]);
            proof {
                lemma_fold_take(ev, j + 1);
            }
            let ghost before = self.vals@;
            if same_text(e.0.as_str(), name) {
                found = Some(e.1);
                assert(fold_entries(ev.take(j + 1)).remove(name@) =~= fold_entries(ev.take(j as int)).remove(name@));
            } else {
                self.vals.push(e);
                assert(entry_views(self.vals@).drop_last() =~= entry_views(before));
                assert(fold_entries(entry_views(self.vals@)) =~= fold_entries(ev.take(j + 1)).remove(name@));
            }
            assert(rest_vals@ =~= orig.skip(j + 1));
            j = j + 1;
        }
        assert(ev.take(j as int) =~= ev);
        found
    }

    /// Removes the capture `name` if it matched many times, and hands back its texts.
    pub fn take_many(&mut self, name: &str) -> (r: Option<Vec<&'t str>>)
        ensures
            final(self)@.rest == old(self)@.rest,
            match r {
                Some(v) => old(self)@.captures.contains_key(name@)
                    && old(self)@.captures[name@] == MatchView::Many(str_views(v@))
                    && final(self)@.captures == old(self)@.captures.remove(name@),
                None => !(old(self)@.captures.contains_key(name@) && old(self)@.captures[name@] is Many)
                    && final(self)@.captures == old(self)@.captures,
            },
    {
        if self.get_many(name).is_some() {
            match self.take(name) {
                Some(m) => m.many(),
                None => None,
            }
        } else {
            None
        }
    }
}

} // verus!
