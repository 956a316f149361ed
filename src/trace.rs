use vstd::prelude::*;

use crate::error::AnalysisError;

verus! {

/// A recorded event: the cycle at which it happened and the label it carries.
pub type Lap = (u32, String);

/// The mathematical form of a reconstructed interval.
pub ghost struct Interval {
    pub id: Seq<char>,
    pub start: u32,
    pub end: u32,
    pub inner: Seq<Interval>,
}

/// A span of cycles together with the spans nested inside it.
#[derive(Debug, PartialEq, Eq)]
pub struct Trace {
    pub id: String,
    pub start: u32,
    pub end: u32,
    pub inner: Vec<Trace>,
}

impl Trace {
    /// The interval tree that this trace stands for.
    pub open spec fn interval(&self) -> Interval
        decreases self,
    {
        Interval {
            id: self.id@,
            start: self.start,
            end: self.end,
            inner: Seq::new(
                self.inner.len() as nat,
                |i: int|
                    if 0 <= i < self.inner.len() {
                        self.inner[i].interval()
                    } else {
                        arbitrary()
                    },
            ),
        }
    }
}

impl Clone for Trace {
    /// A deep copy of the tree.
    fn clone(&self) -> (r: Trace)
        ensures
            r@ == self@,
        decreases self,
    {
        let mut inner: Vec<Trace> = Vec::new();
        let mut i: usize = 0;
        while i < self.inner.len()
            invariant
                i <= self.inner@.len(),
                views_of(inner@) == views_of(self.inner@.take(i as int)),
            decreases self.inner@.len() - i,
        {
            let c = self.inner[i].clone();
            let ghost before = inner@;
            inner.push(c);
            proof {
                assert(views_of(inner@) =~= views_of(before).push(c@));
                assert(self.inner@.take(i + 1) =~= self.inner@.take(i as int).push(self.inner@[i as int]));
                assert(views_of(self.inner@.take(i + 1)) =~= views_of(self.inner@.take(i as int)).push(
                    self.inner@[i as int]@,
                ));
            }
            i += 1;
        }
        let r = Trace { id: self.id.clone(), start: self.start, end: self.end, inner };
        proof {
            assert(self.inner@.take(self.inner@.len() as int) =~= self.inner@);
            assert(r@.inner =~= self@.inner) by {
                assert forall|k: int| 0 <= k < r.inner@.len() implies r@.inner[k] == self@.inner[k] by {
                    assert(views_of(inner@)[k] == views_of(self.inner@)[k]);
                }
            }
        }
        r
    }
}

impl View for Trace {
    type V = Interval;

    open spec fn view(&self) -> Interval {
        self.interval()
    }
}

/// The events as plain values: cycle and label.
pub open spec fn events_of(laps: Seq<Lap>) -> Seq<(u32, Seq<char>)> {
    laps.map_values(|l: Lap| (l.0, l.1@))
}

/// The mathematical form of a sequence of traces.
pub open spec fn views_of(ts: Seq<Trace>) -> Seq<Interval> {
    ts.map_values(|t: Trace| t@)
}

/// The first position at or after `from` whose event carries `label`.
pub open spec fn next_with_label(evs: Seq<(u32, Seq<char>)>, label: Seq<char>, from: int) -> Option<int>
    decreases evs.len() - from,
{
    if from < 0 || from >= evs.len() {
        None
    } else if evs[from].1 == label {
        Some(from)
    } else {
        next_with_label(evs, label, from + 1)
    }
}

/// The intervals that a flat event sequence describes: the first event opens an
/// interval, the next event with the same label closes it, the events between
/// the two are its children, and the events after it are its later siblings.
/// `None` when some opened interval is never closed.
pub open spec fn nest(evs: Seq<(u32, Seq<char>)>) -> Option<Seq<Interval>>
    decreases evs.len(),
{
    if evs.len() == 0 {
        Some(Seq::empty())
    } else {
        match next_with_label(evs, evs[0].1, 1) {
            Some(j) if 0 < j < evs.len() => match (
                nest(evs.subrange(1, j)),
                nest(evs.subrange(j + 1, evs.len() as int)),
            ) {
                (Some(inner), Some(rest)) => Some(
                    seq![Interval { id: evs[0].1, start: evs[0].0, end: evs[j].0, inner }] + rest,
                ),
                _ => None,
            },
            _ => None,
        }
    }
}

/// The tree that `make_trace` builds: a root with the given id and bounds over
/// the intervals of `evs`.
pub open spec fn reconstruct(start: u32, end: u32, evs: Seq<(u32, Seq<char>)>, id: Seq<char>) -> Option<Interval> {
    match nest(evs) {
        Some(inner) => Some(Interval { id, start, end, inner }),
        None => None,
    }
}

/// The events that an interval leaves when walked depth first: one at its
/// start carrying its id, those of its children in order, one at its end
/// carrying its id.
pub open spec fn flatten(t: Interval) -> Seq<(u32, Seq<char>)>
    decreases t,
{
    seq![(t.start, t.id)] + flatten_all(t.inner) + seq![(t.end, t.id)]
}

/// The events of a sequence of sibling intervals, one after the other.
pub open spec fn flatten_all(ts: Seq<Interval>) -> Seq<(u32, Seq<char>)>
    decreases ts,
{
    if ts.len() == 0 {
        Seq::empty()
    } else {
        flatten(ts[0]) + flatten_all(ts.subrange(1, ts.len() as int))
    }
}

/// No interval of the tree shares its id with an interval nested inside it,
/// so that closing on the next equal label finds the interval's own end.
pub open spec fn nestable(t: Interval) -> bool
    decreases t,
{
    &&& forall|k: int| 0 <= k < flatten_all(t.inner).len() ==> flatten_all(t.inner)[k].1 != t.id
    &&& forall|i: int| 0 <= i < t.inner.len() ==> nestable(#[trigger] t.inner[i])
}

proof fn lemma_nest_flatten_all(ts: Seq<Interval>)
    requires
        forall|i: int| 0 <= i < ts.len() ==> nestable(#[trigger] ts[i]),
    ensures
        nest(flatten_all(ts)) == Some(ts),
    decreases ts,
{
    if ts.len() == 0 {
        assert(flatten_all(ts) =~= Seq::<(u32, Seq<char>)>::empty());
    } else {
        let t = ts[0];
        let rest = ts.subrange(1, ts.len() as int);
        let f = flatten_all(t.inner);
        let r = flatten_all(rest);
        let e = flatten_all(ts);
        let n = f.len() as int;
        assert(nestable(t));
        assert(flatten(t) == seq![(t.start, t.id)] + f + seq![(t.end, t.id)]);
        assert(e == flatten(t) + r);
        assert forall|m: int| 1 <= m < n + 1 implies e[m].1 != t.id by {
            assert(e[m] == f[m - 1]);
        }
        assert(e[n + 1] == (t.end, t.id));
        lemma_next_found(e, t.id, 1, n + 1);
        assert(e.subrange(1, n + 1) =~= f);
        assert(e.subrange(n + 2, e.len() as int) =~= r);
        assert forall|i: int| 0 <= i < t.inner.len() implies nestable(#[trigger] t.inner[i]) by {}
        lemma_nest_flatten_all(t.inner);
        assert forall|i: int| 0 <= i < rest.len() implies nestable(#[trigger] rest[i]) by {
            assert(rest[i] == ts[i + 1]);
        }
        lemma_nest_flatten_all(rest);
        assert(seq![t] + rest =~= ts);
    }
}

/// Rebuilding the events of a flattened tree gives the tree back: same ids,
/// same bounds, same order of children, provided that no interval below the
/// root shares its id with an interval nested inside it.
pub proof fn lemma_nesting_round_trip(t: Interval)
    requires
        forall|i: int| 0 <= i < t.inner.len() ==> nestable(#[trigger] t.inner[i]),
    ensures
        reconstruct(t.start, t.end, flatten_all(t.inner), t.id) == Some(t),
{
    lemma_nest_flatten_all(t.inner);
}

/// Each interval lies within `[lo, hi]`, ends no earlier than it starts, holds
/// its children within its own bounds, and ends no later than any later
/// sibling starts.
pub open spec fn nested_within(ts: Seq<Interval>, lo: u32, hi: u32) -> bool
    decreases ts,
{
    &&& forall|i: int|
        0 <= i < ts.len() ==> {
            &&& lo <= (#[trigger] ts[i]).start <= ts[i].end <= hi
            &&& nested_within(ts[i].inner, ts[i].start, ts[i].end)
        }
    &&& forall|i: int, k: int| 0 <= i < k < ts.len() ==> (#[trigger] ts[i]).end <= (#[trigger] ts[k]).start
}

/// The cycles of the events never decrease and lie within `[lo, hi]`.
pub open spec fn ordered_within(evs: Seq<(u32, Seq<char>)>, lo: u32, hi: u32) -> bool {
    &&& forall|a: int| 0 <= a < evs.len() ==> lo <= (#[trigger] evs[a]).0 <= hi
    &&& forall|a: int, b: int| 0 <= a < b < evs.len() ==> (#[trigger] evs[a]).0 <= (#[trigger] evs[b]).0
}

proof fn lemma_nest_within(evs: Seq<(u32, Seq<char>)>, lo: u32, hi: u32)
    requires
        ordered_within(evs, lo, hi),
        nest(evs) is Some,
    ensures
        nested_within(nest(evs)->Some_0, lo, hi),
    decreases evs.len(),
{
    if evs.len() > 0 {
        let j = next_with_label(evs, evs[0].1, 1)->Some_0;
        let inner_evs = evs.subrange(1, j);
        let rest_evs = evs.subrange(j + 1, evs.len() as int);
        let s = evs[0].0;
        let e = evs[j].0;
        assert(ordered_within(inner_evs, s, e)) by {
            assert forall|a: int| 0 <= a < inner_evs.len() implies s <= (#[trigger] inner_evs[a]).0 <= e by {
                assert(inner_evs[a] == evs[a + 1]);
            }
            assert forall|a: int, b: int| 0 <= a < b < inner_evs.len() implies (#[trigger] inner_evs[a]).0
                <= (#[trigger] inner_evs[b]).0 by {
                assert(inner_evs[a] == evs[a + 1] && inner_evs[b] == evs[b + 1]);
            }
        }
        assert(ordered_within(rest_evs, e, hi)) by {
            assert forall|a: int| 0 <= a < rest_evs.len() implies e <= (#[trigger] rest_evs[a]).0 <= hi by {
                assert(rest_evs[a] == evs[a + j + 1]);
            }
            assert forall|a: int, b: int| 0 <= a < b < rest_evs.len() implies (#[trigger] rest_evs[a]).0
                <= (#[trigger] rest_evs[b]).0 by {
                assert(rest_evs[a] == evs[a + j + 1] && rest_evs[b] == evs[b + j + 1]);
            }
        }
        lemma_nest_within(inner_evs, s, e);
        lemma_nest_within(rest_evs, e, hi);
        let first = Interval { id: evs[0].1, start: s, end: e, inner: nest(inner_evs)->Some_0 };
        let rest = nest(rest_evs)->Some_0;
        let ts = nest(evs)->Some_0;
        assert(ts == seq![first] + rest);
        assert(evs[0].0 <= evs[j].0);
        assert forall|i: int| 0 <= i < ts.len() implies {
            &&& lo <= (#[trigger] ts[i]).start <= ts[i].end <= hi
            &&& nested_within(ts[i].inner, ts[i].start, ts[i].end)
        } by {
            if i > 0 {
                assert(ts[i] == rest[i - 1]);
            }
        }
        assert forall|i: int, k: int| 0 <= i < k < ts.len() implies (#[trigger] ts[i]).end <= (
        #[trigger] ts[k]).start by {
            assert(ts[k] == rest[k - 1]);
            if i > 0 {
                assert(ts[i] == rest[i - 1]);
            }
        }
    }
}

/// When the events come in non-decreasing cycle order within the root's
/// bounds, the rebuilt tree is properly nested: every interval ends no
/// earlier than it starts, lies within its parent, and ends no later than its
/// next sibling starts.
pub proof fn lemma_reconstruct_nested(start: u32, end: u32, evs: Seq<(u32, Seq<char>)>, id: Seq<char>)
    requires
        start <= end,
        ordered_within(evs, start, end),
        reconstruct(start, end, evs, id) is Some,
    ensures
        nested_within(reconstruct(start, end, evs, id)->Some_0.inner, start, end),
{
    lemma_nest_within(evs, start, end);
}

proof fn lemma_next_found(evs: Seq<(u32, Seq<char>)>, label: Seq<char>, from: int, k: int)
    requires
        0 <= from <= k < evs.len(),
        evs[k].1 == label,
        forall|m: int| from <= m < k ==> evs[m].1 != label,
    ensures
        next_with_label(evs, label, from) == Some(k),
    decreases k - from,
{
    if from < k {
        lemma_next_found(evs, label, from + 1, k);
    }
}

proof fn lemma_next_missing(evs: Seq<(u32, Seq<char>)>, label: Seq<char>, from: int)
    requires
        0 <= from,
        forall|m: int| from <= m < evs.len() ==> evs[m].1 != label,
    ensures
        next_with_label(evs, label, from) is None,
    decreases evs.len() - from,
{
    if from < evs.len() {
        lemma_next_missing(evs, label, from + 1);
    }
}

/// Rebuilds the intervals described by `laps[lo..hi]`.
fn nest_range(laps: &[Lap], lo: usize, hi: usize) -> (r: Result<Vec<Trace>, AnalysisError>)
    requires
        lo <= hi <= laps@.len(),
    ensures
        match r {
            Ok(ts) => nest(events_of(laps@).subrange(lo as int, hi as int)) == Some(views_of(ts@)),
            Err(e) => nest(events_of(laps@).subrange(lo as int, hi as int)) is None
                && e == AnalysisError::MalformedEventSequence,
        },
    decreases hi - lo,
{
    let ghost evs = events_of(laps@);
    let mut found: Vec<Trace> = Vec::new();
    let mut pos: usize = lo;
    while pos < hi
        invariant
            lo <= pos <= hi <= laps@.len(),
            evs == events_of(laps@),
            nest(evs.subrange(lo as int, hi as int)) == match nest(evs.subrange(pos as int, hi as int)) {
                Some(rest) => Some(views_of(found@) + rest),
                None => None,
            },
        decreases hi - pos,
    {
        let label = &laps[pos].1;
        let mut j: usize = pos + 1;
        while j < hi && laps[j].1 != *label
            invariant
                pos < j <= hi <= laps@.len(),
                evs == events_of(laps@),
                label@ == evs[pos as int].1,
                forall|m: int| pos < m < j ==> evs[m].1 != label@,
            decreases hi - j,
        {
            j += 1;
        }
        let ghost s = evs.subrange(pos as int, hi as int);
        if j == hi {
            proof {
                lemma_next_missing(s, s[0].1, 1);
            }
            return Err(AnalysisError::MalformedEventSequence);
        }
        proof {
            lemma_next_found(s, s[0].1, 1, j - pos);
            assert(s.subrange(1, j - pos) =~= evs.subrange(pos + 1, j as int));
            assert(s.subrange(j - pos + 1, s.len() as int) =~= evs.subrange(j + 1, hi as int));
        }
        let children = match nest_range(laps, pos + 1, j) {
            Ok(c) => c,
            Err(e) => {
                return Err(e);
            },
        };
        let t = Trace { id: label.clone(), start: laps[pos].0, end: laps[j].0, inner: children };
        proof {
            assert(t@.inner =~= views_of(children@));
        }
        let ghost before = found@;
        found.push(t);
        proof {
            assert(views_of(found@) =~= views_of(before).push(t@));
        }
        pos = j + 1;
    }
    proof {
        assert(evs.subrange(hi as int, hi as int) =~= Seq::<(u32, Seq<char>)>::empty());
        assert(views_of(found@) + Seq::<Interval>::empty() =~= views_of(found@));
    }
    Ok(found)
}

/// Rebuilds the tree of nested intervals that `laps` describes, under a root
/// named `id` that spans `start` to `end`.
///
/// An interval opens at an event and closes at the next event with the same
/// label; the events between the two are nested inside it. Fails with
/// `MalformedEventSequence` exactly when some opened interval is never closed.
pub fn make_trace(start: u32, end: u32, laps: &[Lap], id: String) -> (r: Result<Trace, AnalysisError>)
    ensures
        match r {
            Ok(t) => reconstruct(start, end, events_of(laps@), id@) == Some(t@),
            Err(e) => reconstruct(start, end, events_of(laps@), id@) is None
                && e == AnalysisError::MalformedEventSequence,
        },
{
    proof {
        assert(events_of(laps@).subrange(0, laps@.len() as int) =~= events_of(laps@));
    }
    match nest_range(laps, 0, laps.len()) {
        Ok(inner) => {
            let t = Trace { id, start, end, inner };
            proof {
                assert(t@.inner =~= views_of(inner@));
            }
            Ok(t)
        },
        Err(e) => Err(e),
    }
}

} // verus!
