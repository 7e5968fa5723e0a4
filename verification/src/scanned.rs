//! What the scanners found in one chunk, merged into the single stream-ordered list of events an
//! engine must be stopped at: it can only be advanced forwards, so each kind of event has to land
//! at its own offset among the others.
use vstd::prelude::*;
use crate::osc133::Mark;
use crate::protect::Request;
use crate::rect::RectRequest;

verus! {

/// One thing to do part-way through a chunk.
#[derive(Debug, Clone, Copy, PartialEq, Eq)]
pub enum Interruption {
    /// A shell-integration prompt mark.
    Prompt(Mark),
    /// An explicit bookmark a script dropped; the whole event is the line it arrived on.
    UserMark,
    /// A selective-erase request.
    Protect(Request),
    /// A rectangular area operation.
    Rect(RectRequest),
    /// The tab stops put back every eight columns.
    TabStops,
}

/// Everything one chunk's scanners found, each list in the order its scanner reported it.
#[derive(Debug)]
pub struct Scanned {
    pub marks: Vec<(usize, Mark)>,
    pub bookmarks: Vec<usize>,
    pub protections: Vec<(usize, Request)>,
    pub rectangles: Vec<(usize, RectRequest)>,
    pub tab_resets: Vec<usize>,
}

/// Every event of a chunk tagged with its kind, kind after kind in the order the fields are
/// listed, each kind in the order it was scanned.
pub open spec fn tagged(s: Scanned) -> Seq<(usize, Interruption)> {
    s.marks@.map_values(|m: (usize, Mark)| (m.0, Interruption::Prompt(m.1))) + s.bookmarks@.map_values(
        |o: usize| (o, Interruption::UserMark),
    ) + s.protections@.map_values(|p: (usize, Request)| (p.0, Interruption::Protect(p.1)))
        + s.rectangles@.map_values(|r: (usize, RectRequest)| (r.0, Interruption::Rect(r.1)))
        + s.tab_resets@.map_values(|o: usize| (o, Interruption::TabStops))
}

/// `e` placed into an offset-ordered run after every entry at an offset no later than its own.
pub open spec fn insert_by_offset(sorted: Seq<(usize, Interruption)>, e: (usize, Interruption)) -> Seq<
    (usize, Interruption),
>
    decreases sorted.len(),
{
    if sorted.len() == 0 || sorted.last().0 <= e.0 {
        sorted.push(e)
    } else {
        insert_by_offset(sorted.drop_last(), e).push(sorted.last())
    }
}

/// A run sorted by offset, stably: entries at the same offset keep the order they came in.
pub open spec fn by_offset(s: Seq<(usize, Interruption)>) -> Seq<(usize, Interruption)>
    decreases s.len(),
{
    if s.len() == 0 {
        s
    } else {
        insert_by_offset(by_offset(s.drop_last()), s.last())
    }
}

pub open spec fn ascending(s: Seq<(usize, Interruption)>) -> bool {
    forall|i: int, j: int| 0 <= i <= j < s.len() ==> s[i].0 <= s[j].0
}

impl Scanned {
    /// Whether no scanner found anything — the common chunk, fed to an engine in one advance.
    pub fn is_empty(&self) -> (empty: bool)
        ensures
            empty == (tagged(*self).len() == 0),
    {
        self.marks.len() == 0 && self.bookmarks.len() == 0 && self.protections.len() == 0
            && self.rectangles.len() == 0 && self.tab_resets.len() == 0
    }
}

proof fn lemma_insert_step(sorted: Seq<(usize, Interruption)>, j: int, e: (usize, Interruption))
    requires
        0 < j <= sorted.len(),
        sorted[j - 1].0 > e.0,
    ensures
        insert_by_offset(sorted.take(j), e) == insert_by_offset(sorted.take(j - 1), e).push(
            sorted[j - 1],
        ),
{
    assert(sorted.take(j).drop_last() =~= sorted.take(j - 1));
}

/// Where `e` goes in an offset-ordered run: after the last entry at an offset no later than its own.
fn place(sorted: &mut Vec<(usize, Interruption)>, e: (usize, Interruption))
    ensures
        final(sorted)@ == insert_by_offset(old(sorted)@, e),
{
    let ghost before = sorted@;
    let mut j = sorted.len();
    assert(before.take(j as int) =~= before);
    while j > 0 && sorted[j - 1].0 > e.0
        invariant
            j <= before.len(),
            sorted@ == before,
            insert_by_offset(before, e) == insert_by_offset(before.take(j as int), e) + before.skip(
                j as int,
            ),
        decreases j,
    {
        proof {
            lemma_insert_step(before, j as int, e);
            assert(before.skip(j - 1) =~= seq![before[j - 1]] + before.skip(j as int));
            assert(insert_by_offset(before.take(j - 1), e).push(before[j - 1]) + before.skip(
                j as int,
            ) =~= insert_by_offset(before.take(j - 1), e) + before.skip(j - 1));
        }
        j = j - 1;
    }
    proof {
        assert(before.take(j as int).len() == 0 || before.take(j as int).last().0 <= e.0);
    }
    sorted.insert(j, e);
    assert(sorted@ =~= before.take(j as int).push(e) + before.skip(j as int));
}

/// Merge one chunk's events into offset order. The sort is stable, so two events at the very same
/// offset keep the order they were scanned in — the kinds in the order `Scanned` lists them.
pub fn interruptions(scanned: Scanned) -> (merged: Vec<(usize, Interruption)>)
    ensures
        merged@ == by_offset(tagged(scanned)),
{
    let ghost all = tagged(scanned);
    let mut pending: Vec<(usize, Interruption)> = Vec::new();
    let mut k: usize = 0;
    while k < scanned.marks.len()
        invariant
            k <= scanned.marks@.len(),
            pending@ == scanned.marks@.take(k as int).map_values(
                |m: (usize, Mark)| (m.0, Interruption::Prompt(m.1)),
            ),
        decreases scanned.marks@.len() - k,
    {
        let (offset, mark) = scanned.marks[k];
        pending.push((offset, Interruption::Prompt(mark)));
        assert(scanned.marks@.take(k + 1) =~= scanned.marks@.take(k as int).push(scanned.marks@[k as int]));
        assert(pending@ =~= scanned.marks@.take(k + 1).map_values(
            |m: (usize, Mark)| (m.0, Interruption::Prompt(m.1)),
        ));
        k = k + 1;
    }
    assert(scanned.marks@.take(k as int) =~= scanned.marks@);
    let ghost first = pending@;
    let mut k: usize = 0;
    while k < scanned.bookmarks.len()
        invariant
            k <= scanned.bookmarks@.len(),
            pending@ == first + scanned.bookmarks@.take(k as int).map_values(
                |o: usize| (o, Interruption::UserMark),
            ),
        decreases scanned.bookmarks@.len() - k,
    {
        pending.push((scanned.bookmarks[k], Interruption::UserMark));
        assert(scanned.bookmarks@.take(k + 1) =~= scanned.bookmarks@.take(k as int).push(
            scanned.bookmarks@[k as int],
        ));
        assert(pending@ =~= first + scanned.bookmarks@.take(k + 1).map_values(
            |o: usize| (o, Interruption::UserMark),
        ));
        k = k + 1;
    }
    assert(scanned.bookmarks@.take(k as int) =~= scanned.bookmarks@);
    let ghost second = pending@;
    let mut k: usize = 0;
    while k < scanned.protections.len()
        invariant
            k <= scanned.protections@.len(),
            pending@ == second + scanned.protections@.take(k as int).map_values(
                |p: (usize, Request)| (p.0, Interruption::Protect(p.1)),
            ),
        decreases scanned.protections@.len() - k,
    {
        let (offset, request) = scanned.protections[k];
        pending.push((offset, Interruption::Protect(request)));
        assert(scanned.protections@.take(k + 1) =~= scanned.protections@.take(k as int).push(
            scanned.protections@[k as int],
        ));
        assert(pending@ =~= second + scanned.protections@.take(k + 1).map_values(
            |p: (usize, Request)| (p.0, Interruption::Protect(p.1)),
        ));
        k = k + 1;
    }
    assert(scanned.protections@.take(k as int) =~= scanned.protections@);
    let ghost third = pending@;
    let mut k: usize = 0;
    while k < scanned.rectangles.len()
        invariant
            k <= scanned.rectangles@.len(),
            pending@ == third + scanned.rectangles@.take(k as int).map_values(
                |r: (usize, RectRequest)| (r.0, Interruption::Rect(r.1)),
            ),
        decreases scanned.rectangles@.len() - k,
    {
        let (offset, request) = scanned.rectangles[k];
        pending.push((offset, Interruption::Rect(request)));
        assert(scanned.rectangles@.take(k + 1) =~= scanned.rectangles@.take(k as int).push(
            scanned.rectangles@[k as int],
        ));
        assert(pending@ =~= third + scanned.rectangles@.take(k + 1).map_values(
            |r: (usize, RectRequest)| (r.0, Interruption::Rect(r.1)),
        ));
        k = k + 1;
    }
    assert(scanned.rectangles@.take(k as int) =~= scanned.rectangles@);
    let ghost fourth = pending@;
    let mut k: usize = 0;
    while k < scanned.tab_resets.len()
        invariant
            k <= scanned.tab_resets@.len(),
            pending@ == fourth + scanned.tab_resets@.take(k as int).map_values(
                |o: usize| (o, Interruption::TabStops),
            ),
        decreases scanned.tab_resets@.len() - k,
    {
        pending.push((scanned.tab_resets[k], Interruption::TabStops));
        assert(scanned.tab_resets@.take(k + 1) =~= scanned.tab_resets@.take(k as int).push(
            scanned.tab_resets@[k as int],
        ));
        assert(pending@ =~= fourth + scanned.tab_resets@.take(k + 1).map_values(
            |o: usize| (o, Interruption::TabStops),
        ));
        k = k + 1;
    }
    assert(scanned.tab_resets@.take(k as int) =~= scanned.tab_resets@);
    assert(pending@ =~= all);
    let mut merged: Vec<(usize, Interruption)> = Vec::new();
    let mut k: usize = 0;
    while k < pending.len()
        invariant
            k <= pending@.len(),
            pending@ == all,
            merged@ == by_offset(all.take(k as int)),
        decreases pending@.len() - k,
    {
        assert(all.take(k + 1).drop_last() =~= all.take(k as int));
        place(&mut merged, pending[k]);
        k = k + 1;
    }
    assert(all.take(all.len() as int) =~= all);
    merged
}

proof fn lemma_insert_ascending(sorted: Seq<(usize, Interruption)>, e: (usize, Interruption))
    requires
        ascending(sorted),
    ensures
        ascending(insert_by_offset(sorted, e)),
        insert_by_offset(sorted, e).len() == sorted.len() + 1,
        forall|i: int|
            0 <= i < insert_by_offset(sorted, e).len() ==> (#[trigger] insert_by_offset(sorted, e)[i]).0
                == e.0 || exists|j: int| 0 <= j < sorted.len() && sorted[j].0 == insert_by_offset(
                sorted,
                e,
            )[i].0,
    decreases sorted.len(),
{
    if sorted.len() == 0 || sorted.last().0 <= e.0 {
        let r = sorted.push(e);
        assert forall|i: int| 0 <= i < r.len() implies (#[trigger] r[i]).0 == e.0 || exists|j: int|
            0 <= j < sorted.len() && sorted[j].0 == r[i].0 by {
            if i < sorted.len() {
                assert(sorted[i].0 == r[i].0);
            }
        }
    } else {
        let shorter = sorted.drop_last();
        lemma_insert_ascending(shorter, e);
        let inner = insert_by_offset(shorter, e);
        let r = inner.push(sorted.last());
        assert forall|i: int, j: int| 0 <= i <= j < r.len() implies r[i].0 <= r[j].0 by {
            if j == r.len() - 1 && i < j {
                let v = inner[i];
                if v.0 != e.0 {
                    let w = choose|w: int| 0 <= w < shorter.len() && shorter[w].0 == inner[i].0;
                    assert(shorter[w] == sorted[w]);
                }
            }
        }
        assert forall|i: int| 0 <= i < r.len() implies (#[trigger] r[i]).0 == e.0 || exists|j: int|
            0 <= j < sorted.len() && sorted[j].0 == r[i].0 by {
            if i < inner.len() {
                assert(r[i] == inner[i]);
                if inner[i].0 != e.0 {
                    let w = choose|w: int| 0 <= w < shorter.len() && shorter[w].0 == inner[i].0;
                    assert(shorter[w] == sorted[w]);
                }
            } else {
                assert(r[i] == sorted[sorted.len() - 1]);
            }
        }
    }
}

/// Whatever the scanners found, the merged events come out in offset order — the order the engine
/// has to be advanced in.
pub proof fn law_merged_events_ascend(events: Seq<(usize, Interruption)>)
    ensures
        ascending(by_offset(events)),
        by_offset(events).len() == events.len(),
    decreases events.len(),
{
    if events.len() > 0 {
        law_merged_events_ascend(events.drop_last());
        lemma_insert_ascending(by_offset(events.drop_last()), events.last());
    }
}

/// One thing an engine is told to do while a chunk goes through it.
#[derive(Debug, Clone, Copy, PartialEq, Eq)]
pub enum Step {
    /// Feed it the bytes `start..end` of the chunk.
    Advance(usize, usize),
    /// Stop and act on an event, the engine having read everything before it.
    Apply(Interruption),
}

/// The steps for the rest of a chunk of `len` bytes, fed up to `start` so far, with `events` still
/// to land: advance up to each event (never backwards), act on it, and feed what is left after the
/// last one.
pub open spec fn plan_from(start: int, events: Seq<(usize, Interruption)>, len: int) -> Seq<Step>
    decreases events.len(),
{
    if events.len() == 0 {
        seq![Step::Advance(start as usize, len as usize)]
    } else {
        let at = if events[0].0 < start {
            start
        } else {
            events[0].0 as int
        };
        seq![Step::Advance(start as usize, at as usize), Step::Apply(events[0].1)] + plan_from(
            at,
            events.drop_first(),
            len,
        )
    }
}

/// How a chunk of `len` bytes goes through an engine, given its merged events.
pub open spec fn plan(len: int, merged: Seq<(usize, Interruption)>) -> Seq<Step> {
    plan_from(0, merged, len)
}

/// The `k`-th advance of a plan, and the `k`-th event it acts on.
pub open spec fn advance_at(steps: Seq<Step>, k: int) -> Step {
    steps[2 * k]
}

pub open spec fn apply_at(steps: Seq<Step>, k: int) -> Step {
    steps[2 * k + 1]
}

pub open spec fn advance_start(step: Step) -> int {
    match step {
        Step::Advance(start, _) => start as int,
        Step::Apply(_) => 0,
    }
}

pub open spec fn advance_end(step: Step) -> int {
    match step {
        Step::Advance(_, end) => end as int,
        Step::Apply(_) => 0,
    }
}

/// Work out how a chunk of `len` bytes goes through the engine: an advance up to each event's
/// offset, the event, and an advance over the rest. A chunk with no events is one advance.
pub fn chunk_plan(len: usize, merged: &Vec<(usize, Interruption)>) -> (steps: Vec<Step>)
    requires
        forall|i: int| 0 <= i < merged@.len() ==> (#[trigger] merged@[i]).0 <= len,
    ensures
        steps@ == plan(len as int, merged@),
{
    let mut steps: Vec<Step> = Vec::new();
    let mut start: usize = 0;
    let mut k: usize = 0;
    assert(merged@.skip(0) =~= merged@);
    assert(steps@ + plan(len as int, merged@) =~= plan(len as int, merged@));
    while k < merged.len()
        invariant
            k <= merged@.len(),
            start <= len,
            forall|i: int| 0 <= i < merged@.len() ==> (#[trigger] merged@[i]).0 <= len,
            steps@ + plan_from(start as int, merged@.skip(k as int), len as int) == plan(
                len as int,
                merged@,
            ),
        decreases merged@.len() - k,
    {
        let (offset, event) = merged[k];
        let at = if offset < start {
            start
        } else {
            offset
        };
        let ghost rest = merged@.skip(k as int);
        assert(rest[0] == merged@[k as int]);
        assert(rest.drop_first() =~= merged@.skip(k + 1));
        steps.push(Step::Advance(start, at));
        steps.push(Step::Apply(event));
        assert(steps@ + plan_from(at as int, merged@.skip(k + 1), len as int) =~= steps@.drop_last().drop_last()
            + plan_from(start as int, rest, len as int));
        start = at;
        k = k + 1;
    }
    steps.push(Step::Advance(start, len));
    assert(merged@.skip(k as int) =~= Seq::<(usize, Interruption)>::empty());
    steps
}

proof fn lemma_plan_shape(start: int, events: Seq<(usize, Interruption)>, len: int)
    requires
        0 <= start <= len <= usize::MAX,
        forall|i: int| 0 <= i < events.len() ==> (#[trigger] events[i]).0 <= len,
    ensures
        plan_from(start, events, len).len() == 2 * events.len() + 1,
        forall|k: int|
            0 <= k < events.len() ==> #[trigger] apply_at(plan_from(start, events, len), k)
                == Step::Apply(events[k].1),
        forall|k: int|
            0 <= k <= events.len() ==> {
                let a = #[trigger] advance_at(plan_from(start, events, len), k);
                &&& a is Advance
                &&& start <= advance_start(a) <= advance_end(a) <= len
            },
        advance_start(advance_at(plan_from(start, events, len), 0)) == start,
        advance_end(advance_at(plan_from(start, events, len), events.len() as int)) == len,
        forall|k: int|
            0 <= k < events.len() ==> advance_end(#[trigger] advance_at(plan_from(start, events, len), k))
                == advance_start(advance_at(plan_from(start, events, len), k + 1)),
        ascending(events) && (events.len() > 0 ==> start <= events[0].0) ==> forall|k: int|
            0 <= k < events.len() ==> advance_end(#[trigger] advance_at(plan_from(start, events, len), k))
                == events[k].0,
    decreases events.len(),
{
    let p = plan_from(start, events, len);
    if events.len() > 0 {
        let at = if events[0].0 < start {
            start
        } else {
            events[0].0 as int
        };
        let tail = events.drop_first();
        assert forall|i: int| 0 <= i < tail.len() implies (#[trigger] tail[i]).0 <= len by {
            assert(tail[i] == events[i + 1]);
        }
        lemma_plan_shape(at, tail, len);
        let r = plan_from(at, tail, len);
        assert(p == seq![Step::Advance(start as usize, at as usize), Step::Apply(events[0].1)] + r);
        assert forall|k: int| 1 <= k <= events.len() implies #[trigger] advance_at(p, k) == advance_at(
            r,
            k - 1,
        ) by {
            assert(p[2 * k] == r[2 * k - 2]);
        }
        assert forall|k: int| 1 <= k < events.len() implies #[trigger] apply_at(p, k) == apply_at(
            r,
            k - 1,
        ) by {
            assert(p[2 * k + 1] == r[2 * k - 1]);
            assert(tail[k - 1] == events[k]);
        }
        assert(advance_at(p, 0) == Step::Advance(start as usize, at as usize));
        assert(apply_at(p, 0) == Step::Apply(events[0].1));
        assert forall|k: int| 0 <= k < events.len() implies #[trigger] apply_at(p, k) == Step::Apply(
            events[k].1,
        ) by {
            if k > 0 {
                assert(apply_at(p, k) == apply_at(r, k - 1));
                assert(tail[k - 1] == events[k]);
            }
        }
        assert forall|k: int| 0 <= k <= events.len() implies {
            let a = #[trigger] advance_at(p, k);
            &&& a is Advance
            &&& start <= advance_start(a) <= advance_end(a) <= len
        } by {
            if k > 0 {
                assert(advance_at(p, k) == advance_at(r, k - 1));
            }
        }
        assert forall|k: int| 0 <= k < events.len() implies advance_end(#[trigger] advance_at(p, k))
            == advance_start(advance_at(p, k + 1)) by {
            assert(advance_at(p, k + 1) == advance_at(r, k));
            if k > 0 {
                assert(advance_at(p, k) == advance_at(r, k - 1));
            }
        }
        assert(advance_at(p, events.len() as int) == advance_at(r, tail.len() as int));
        if ascending(events) && start <= events[0].0 {
            assert(at == events[0].0);
            assert(ascending(tail)) by {
                assert forall|i: int, j: int| 0 <= i <= j < tail.len() implies tail[i].0 <= tail[j].0 by {
                    assert(tail[i] == events[i + 1]);
                    assert(tail[j] == events[j + 1]);
                }
            }
            if tail.len() > 0 {
                assert(tail[0] == events[1]);
            }
            assert forall|k: int| 0 <= k < events.len() implies advance_end(#[trigger] advance_at(p, k))
                == events[k].0 by {
                if k > 0 {
                    assert(advance_at(p, k) == advance_at(r, k - 1));
                    assert(tail[k - 1] == events[k]);
                }
            }
        }
    } else {
        assert(advance_at(p, 0) == p[0]);
    }
}

/// A chunk goes through the engine whole and once, in order: the advances run back to back from
/// its first byte to its last, each event is acted on between them in the order merged, and when
/// the events ascend — as merged ones do — the engine stands exactly at each event's offset when
/// it is acted on.
pub proof fn law_plan_feeds_every_byte_once(len: usize, merged: Seq<(usize, Interruption)>)
    requires
        forall|i: int| 0 <= i < merged.len() ==> (#[trigger] merged[i]).0 <= len,
    ensures
        plan(len as int, merged).len() == 2 * merged.len() + 1,
        advance_start(advance_at(plan(len as int, merged), 0)) == 0,
        advance_end(advance_at(plan(len as int, merged), merged.len() as int)) == len,
        forall|k: int|
            0 <= k <= merged.len() ==> {
                let a = #[trigger] advance_at(plan(len as int, merged), k);
                &&& a is Advance
                &&& advance_start(a) <= advance_end(a)
            },
        forall|k: int|
            0 <= k < merged.len() ==> advance_end(#[trigger] advance_at(plan(len as int, merged), k))
                == advance_start(advance_at(plan(len as int, merged), k + 1)),
        forall|k: int|
            0 <= k < merged.len() ==> #[trigger] apply_at(plan(len as int, merged), k) == Step::Apply(
                merged[k].1,
            ),
        ascending(merged) ==> forall|k: int|
            0 <= k < merged.len() ==> advance_end(#[trigger] advance_at(plan(len as int, merged), k))
                == merged[k].0,
{
    lemma_plan_shape(0, merged, len as int);
}

} // verus!
