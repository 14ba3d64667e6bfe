//! Splitting segments where two neighbours of the status line cross or
//! overlap.

use crate::error::SweepError;
use crate::event::{
    endpoints_kept, event_ok, events_wf, fresh_event, ids_within, lemma_endpoints_kept_twice,
    lemma_relabel_keeps_wf, twin_point, EdgeType, EventArena, SweepEvent,
};
use crate::geometry::{earlier, intersect, intersection, later, LineIntersection, Point};
use crate::queue::EventQueue;
use vstd::prelude::*;

verus! {

/// What the resolver did to two neighbouring segments.
#[derive(Clone, Copy, Debug, PartialEq, Eq, Structural)]
pub enum Resolution {
    /// The segments do not meet, or they overlap within one polygon: nothing
    /// was changed.
    NoAction,
    /// The segments meet in a point at which neither had to be split:
    /// nothing was changed.
    Handled,
    /// Segments were split or marked: the labels of both have to be
    /// computed again.
    Relabel,
}

/// The events and the queue, as the resolver sees and changes them.
pub struct Stores {
    pub events: Seq<SweepEvent>,
    pub queue: Seq<usize>,
}

/// Whether the arena and the queue have grown by the same number of events.
pub open spec fn grown_together(before: Stores, after: Stores) -> bool {
    &&& before.events.len() <= after.events.len()
    &&& after.events.len() - before.events.len() == after.queue.len() - before.queue.len()
}

/// Whether `p` lies strictly between the ends of the segment of left event
/// `left` in sweep order.
pub open spec fn can_divide(ev: Seq<SweepEvent>, left: int, p: Point) -> bool {
    &&& ev[left].is_left
    &&& ev[left].point.precedes(p)
    &&& p.precedes(twin_point(ev, left))
}

/// The events after the segment of left event `left` is split at `p`: the
/// segment ends at a new right event at `p`, and a new left event at `p`
/// starts the rest, which ends at the old right event.
#[verifier::opaque]
pub open spec fn divided(ev: Seq<SweepEvent>, left: int, p: Point) -> Seq<SweepEvent> {
    let right = ev[left].other_event;
    let n = ev.len();
    ev.update(left, SweepEvent { other_event: n as usize, ..ev[left] }).update(
        right as int,
        SweepEvent { other_event: (n + 1) as usize, ..ev[right as int] },
    ).push(fresh_event(p, false, left as usize, ev[left].polygon)).push(
        fresh_event(p, true, right, ev[left].polygon),
    )
}

/// The stores after the segment of `left` is split at `p` and the two new
/// events are queued.
pub open spec fn cut(s: Stores, left: int, p: Point) -> Stores {
    Stores {
        events: divided(s.events, left, p),
        queue: s.queue.push(s.events.len() as usize).push((s.events.len() + 1) as usize),
    }
}

/// The events after two overlapping segments that start at one point are
/// marked: the upper one adds nothing, the lower one records whether both
/// cross their polygons in the same direction.
#[verifier::opaque]
pub open spec fn marked(ev: Seq<SweepEvent>, lower: int, upper: int) -> Seq<SweepEvent> {
    let kind = if ev[lower].in_out == ev[upper].in_out {
        EdgeType::SameTransition
    } else {
        EdgeType::DifferentTransition
    };
    ev.update(upper, SweepEvent { edge_type: EdgeType::NonContributing, ..ev[upper] }).update(
        lower,
        SweepEvent { edge_type: kind, ..ev[lower] },
    )
}

/// The report that the two segments have to be split behind the sweep.
pub open spec fn behind_sweep(lower: int, upper: int) -> Result<Resolution, SweepError> {
    Err(SweepError::SplitBehindSweep { lower: lower as usize, upper: upper as usize })
}

/// What becomes of the stores when the segments `lower` and `upper` meet in
/// the single point `p`: each one that has `p` strictly between its ends is
/// split there.
pub open spec fn resolved_crossing(s: Stores, lower: int, upper: int, p: Point, sweep: Point) -> (
    Stores,
    Result<Resolution, SweepError>,
) {
    let cut_lower = can_divide(s.events, lower, p);
    let cut_upper = can_divide(s.events, upper, p);
    if !cut_lower && !cut_upper {
        (s, Ok(Resolution::Handled))
    } else if p.precedes(sweep) {
        (s, behind_sweep(lower, upper))
    } else {
        let s1 = if cut_lower {
            cut(s, lower, p)
        } else {
            s
        };
        let s2 = if cut_upper {
            cut(s1, upper, p)
        } else {
            s1
        };
        (s2, Ok(Resolution::Relabel))
    }
}

/// What becomes of the stores when the segments `lower` and `upper` of
/// different polygons start at one point and overlap up to `hi`: both are
/// marked, and the longer one is split at `hi`.
pub open spec fn resolved_common_start(s: Stores, lower: int, upper: int, hi: Point, sweep: Point) -> (
    Stores,
    Result<Resolution, SweepError>,
) {
    let q1 = twin_point(s.events, lower);
    let q2 = twin_point(s.events, upper);
    let m = Stores { events: marked(s.events, lower, upper), queue: s.queue };
    if q1 == q2 {
        (m, Ok(Resolution::Relabel))
    } else if hi.precedes(sweep) {
        (s, behind_sweep(lower, upper))
    } else if q1.precedes(q2) {
        (cut(m, upper, hi), Ok(Resolution::Relabel))
    } else {
        (cut(m, lower, hi), Ok(Resolution::Relabel))
    }
}

/// What becomes of the stores when the segments `lower` and `upper` of
/// different polygons start at different points and overlap from `lo` to
/// `hi`: the one that starts first is split at `lo`; then the one that ends
/// last is split at `hi`.
pub open spec fn resolved_staggered(
    s: Stores,
    lower: int,
    upper: int,
    lo: Point,
    hi: Point,
    sweep: Point,
) -> (Stores, Result<Resolution, SweepError>) {
    let ev = s.events;
    let starts_first = ev[lower].point.precedes(ev[upper].point);
    let first = if starts_first {
        lower
    } else {
        upper
    };
    let second = if starts_first {
        upper
    } else {
        lower
    };
    if lo.precedes(sweep) {
        (s, behind_sweep(lower, upper))
    } else {
        let s1 = cut(s, first, lo);
        if twin_point(ev, first) == twin_point(ev, second) {
            (s1, Ok(Resolution::Relabel))
        } else if twin_point(ev, first).precedes(twin_point(ev, second)) {
            (cut(s1, second, hi), Ok(Resolution::Relabel))
        } else {
            (cut(s1, ev.len() as int + 1, hi), Ok(Resolution::Relabel))
        }
    }
}

/// What becomes of the stores when the neighbouring segments `lower` and
/// `upper` are probed while the sweep stands at `sweep`, and what is reported.
///
/// Segments that meet in one point are split there. Segments of different
/// polygons that overlap are split at the ends of the shared part; where
/// they also start together they are marked. Whenever a segment was split
/// or marked, the caller is told to compute the labels again. Nothing is
/// split at a point that the sweep has passed: that is an error, and the
/// stores stay as they were.
pub open spec fn resolved(s: Stores, lower: int, upper: int, sweep: Point) -> (
    Stores,
    Result<Resolution, SweepError>,
) {
    let ev = s.events;
    if lower == upper {
        (s, Ok(Resolution::NoAction))
    } else {
        match intersect(
            ev[lower].point,
            twin_point(ev, lower),
            ev[upper].point,
            twin_point(ev, upper),
        ) {
            LineIntersection::Disjoint => (s, Ok(Resolution::NoAction)),
            LineIntersection::Single(p) => resolved_crossing(s, lower, upper, p, sweep),
            LineIntersection::Overlap(lo, hi) => {
                if ev[lower].polygon == ev[upper].polygon {
                    (s, Ok(Resolution::NoAction))
                } else if ev[lower].point == ev[upper].point {
                    resolved_common_start(s, lower, upper, hi, sweep)
                } else {
                    resolved_staggered(s, lower, upper, lo, hi, sweep)
                }
            },
        }
    }
}

/// The shared part of two overlapping segments runs from the later start to
/// the earlier end.
pub proof fn lemma_overlap_ends(a1: Point, a2: Point, b1: Point, b2: Point)
    ensures
        match intersect(a1, a2, b1, b2) {
            LineIntersection::Overlap(lo, hi) => lo == later(a1, b1) && hi == earlier(a2, b2)
                && lo.precedes(hi),
            _ => true,
        },
{
}

/// Splitting a segment strictly between its ends keeps the arena well
/// formed and every older event the endpoint that it was. The two pieces
/// run from the old left end to `p` and from `p` to the old right end; no
/// other segment changes.
pub proof fn lemma_divided(ev: Seq<SweepEvent>, left: int, p: Point)
    requires
        events_wf(ev),
        0 <= left < ev.len(),
        can_divide(ev, left, p),
        ev.len() + 2 <= usize::MAX,
    ensures
        events_wf(divided(ev, left, p)),
        endpoints_kept(ev, divided(ev, left, p)),
        divided(ev, left, p).len() == ev.len() + 2,
        divided(ev, left, p)[ev.len() as int].point == p,
        !divided(ev, left, p)[ev.len() as int].is_left,
        divided(ev, left, p)[ev.len() as int + 1].point == p,
        divided(ev, left, p)[ev.len() as int + 1].is_left,
        twin_point(divided(ev, left, p), left) == p,
        twin_point(divided(ev, left, p), ev.len() as int + 1) == twin_point(ev, left),
        forall|i: int|
            0 <= i < ev.len() && i != left && ev[i].is_left ==> #[trigger] twin_point(
                divided(ev, left, p),
                i,
            ) == twin_point(ev, i),
{
    reveal(divided);
    let after = divided(ev, left, p);
    let right = ev[left].other_event as int;
    let n = ev.len() as int;
    assert(event_ok(ev, left));
    assert(event_ok(ev, right));
    assert forall|i: int| 0 <= i < after.len() implies #[trigger] event_ok(after, i) by {
        if i < n {
            assert(event_ok(ev, i));
            let t = ev[i].other_event as int;
            assert(event_ok(ev, t));
        }
    }
    assert forall|i: int| 0 <= i < ev.len() && i != left && ev[i].is_left implies #[trigger] twin_point(
        after,
        i,
    ) == twin_point(ev, i) by {
        assert(event_ok(ev, i));
        let t = ev[i].other_event as int;
        assert(event_ok(ev, t));
    }
}

/// A segment other than the one that was split can be split where it could
/// be split before.
pub proof fn lemma_divided_other(ev: Seq<SweepEvent>, left: int, p: Point, other: int, q: Point)
    requires
        events_wf(ev),
        0 <= left < ev.len(),
        can_divide(ev, left, p),
        ev.len() + 2 <= usize::MAX,
        0 <= other < ev.len(),
        other != left,
        can_divide(ev, other, q),
    ensures
        can_divide(divided(ev, left, p), other, q),
{
    lemma_divided(ev, left, p);
    let after = divided(ev, left, p);
    assert(after[other].point == ev[other].point);
    assert(twin_point(after, other) == twin_point(ev, other));
}

/// The rest of a segment that was split at `p` can be split at any point
/// between `p` and its right end.
pub proof fn lemma_divided_tail(ev: Seq<SweepEvent>, left: int, p: Point, q: Point)
    requires
        events_wf(ev),
        0 <= left < ev.len(),
        can_divide(ev, left, p),
        ev.len() + 2 <= usize::MAX,
        p.precedes(q),
        q.precedes(twin_point(ev, left)),
    ensures
        can_divide(divided(ev, left, p), ev.len() as int + 1, q),
{
    lemma_divided(ev, left, p);
}

/// Marking two segments keeps the arena well formed and every event the
/// endpoint that it was.
pub proof fn lemma_marked(ev: Seq<SweepEvent>, lower: int, upper: int)
    requires
        events_wf(ev),
        0 <= lower < ev.len(),
        0 <= upper < ev.len(),
    ensures
        events_wf(marked(ev, lower, upper)),
        endpoints_kept(ev, marked(ev, lower, upper)),
        marked(ev, lower, upper).len() == ev.len(),
        forall|i: int|
            0 <= i < ev.len() ==> (#[trigger] marked(ev, lower, upper)[i]).other_event
                == ev[i].other_event,
        forall|i: int, p: Point|
            0 <= i < ev.len() ==> #[trigger] can_divide(marked(ev, lower, upper), i, p)
                == can_divide(ev, i, p),
{
    reveal(marked);
    assert forall|i: int, p: Point| 0 <= i < ev.len() implies #[trigger] can_divide(
        marked(ev, lower, upper),
        i,
        p,
    ) == can_divide(ev, i, p) by {
        assert(event_ok(ev, i));
    }
    let upper_marked = SweepEvent { edge_type: EdgeType::NonContributing, ..ev[upper] };
    let ev1 = ev.update(upper, upper_marked);
    lemma_relabel_keeps_wf(ev, upper, upper_marked);
    lemma_relabel_keeps_wf(ev1, lower, marked(ev, lower, upper)[lower]);
}

/// Whether no pending event lies at a point that comes before `sweep`.
#[verifier::opaque]
pub open spec fn queue_ahead(ev: Seq<SweepEvent>, queue: Seq<usize>, sweep: Point) -> bool {
    forall|k: int|
        0 <= k < queue.len() ==> !ev[(#[trigger] queue[k]) as int].point.precedes(sweep)
}

/// Whether a change of the stores leaves no pending event behind `sweep`,
/// if none was behind it before.
pub open spec fn stays_ahead(before: Stores, after: Stores, sweep: Point) -> bool {
    queue_ahead(before.events, before.queue, sweep) ==> queue_ahead(
        after.events,
        after.queue,
        sweep,
    )
}

/// Relinking and relabelling events leaves every pending event where it is.
pub proof fn lemma_same_queue_ahead(
    before: Seq<SweepEvent>,
    after: Seq<SweepEvent>,
    queue: Seq<usize>,
    sweep: Point,
)
    requires
        endpoints_kept(before, after),
        ids_within(queue, before.len()),
    ensures
        stays_ahead(
            (Stores { events: before, queue }),
            (Stores { events: after, queue }),
            sweep,
        ),
{
    reveal(queue_ahead);
    if queue_ahead(before, queue, sweep) {
        assert forall|k: int| 0 <= k < queue.len() implies !after[(#[trigger] queue[k]) as int].point.precedes(
            sweep,
        ) by {
            let id = queue[k] as int;
            assert(after[id].point == before[id].point);
        }
    }
}

/// A split at a point that is not behind the sweep queues no event behind
/// the sweep.
pub proof fn lemma_cut_ahead(s: Stores, left: int, p: Point, sweep: Point)
    requires
        events_wf(s.events),
        ids_within(s.queue, s.events.len()),
        0 <= left < s.events.len(),
        can_divide(s.events, left, p),
        s.events.len() + 2 <= usize::MAX,
        !p.precedes(sweep),
    ensures
        stays_ahead(s, cut(s, left, p), sweep),
{
    reveal(queue_ahead);
    lemma_divided(s.events, left, p);
    let after = cut(s, left, p);
    if queue_ahead(s.events, s.queue, sweep) {
        assert forall|k: int| 0 <= k < after.queue.len() implies !after.events[(
        #[trigger] after.queue[k]) as int].point.precedes(sweep) by {
            if k < s.queue.len() {
                let id = s.queue[k] as int;
                assert(after.queue[k] == s.queue[k]);
                assert(after.events[id].point == s.events[id].point);
            }
        }
    }
}

/// Splits the segment of left event `left` at `p` and queues the two new
/// events.
pub fn divide_segment(arena: &mut EventArena, queue: &mut EventQueue, left: usize, p: Point)
    requires
        events_wf(old(arena)@),
        ids_within(old(queue)@, old(arena)@.len()),
        left < old(arena)@.len(),
        can_divide(old(arena)@, left as int, p),
    ensures
        (Stores { events: final(arena)@, queue: final(queue)@ }) == cut(
            (Stores { events: old(arena)@, queue: old(queue)@ }),
            left as int,
            p,
        ),
        events_wf(final(arena)@),
        ids_within(final(queue)@, final(arena)@.len()),
        final(arena)@.len() == old(arena)@.len() + 2,
        old(arena)@.len() + 2 <= usize::MAX,
        endpoints_kept(old(arena)@, final(arena)@),
{
    let mut start = arena.get(left);
    let right: usize = start.other_event;
    proof {
        assert(event_ok(arena@, left as int));
    }
    let mut end = arena.get(right);
    let new_right: usize = arena.len();
    arena.append(
        SweepEvent {
            point: p,
            is_left: false,
            other_event: left,
            polygon: start.polygon,
            edge_type: EdgeType::Normal,
            in_out: false,
            other_in_out: false,
            inside_other: false,
            in_result: false,
        },
    );
    let new_left: usize = arena.len();
    arena.append(
        SweepEvent {
            point: p,
            is_left: true,
            other_event: right,
            polygon: start.polygon,
            edge_type: EdgeType::Normal,
            in_out: false,
            other_in_out: false,
            inside_other: false,
            in_result: false,
        },
    );
    proof {
        arena.lemma_len_bounded();
    }
    start.other_event = new_right;
    arena.replace(left, start);
    end.other_event = new_left;
    arena.replace(right, end);
    queue.push(new_right);
    queue.push(new_left);
    proof {
        assert(arena@ =~= divided(old(arena)@, left as int, p)) by {
            reveal(divided);
        }
        lemma_divided(old(arena)@, left as int, p);
    }
}

fn split_crossing(
    arena: &mut EventArena,
    queue: &mut EventQueue,
    lower: usize,
    upper: usize,
    p: Point,
    sweep: Point,
) -> (outcome: Result<Resolution, SweepError>)
    requires
        events_wf(old(arena)@),
        ids_within(old(queue)@, old(arena)@.len()),
        lower < old(arena)@.len(),
        upper < old(arena)@.len(),
        lower != upper,
        old(arena)@[lower as int].is_left,
        old(arena)@[upper as int].is_left,
    ensures
        ((Stores { events: final(arena)@, queue: final(queue)@ }), outcome) == resolved_crossing(
            (Stores { events: old(arena)@, queue: old(queue)@ }),
            lower as int,
            upper as int,
            p,
            sweep,
        ),
        events_wf(final(arena)@),
        ids_within(final(queue)@, final(arena)@.len()),
        endpoints_kept(old(arena)@, final(arena)@),
        grown_together(
            (Stores { events: old(arena)@, queue: old(queue)@ }),
            (Stores { events: final(arena)@, queue: final(queue)@ }),
        ),
        stays_ahead(
            (Stores { events: old(arena)@, queue: old(queue)@ }),
            (Stores { events: final(arena)@, queue: final(queue)@ }),
            sweep,
        ),
{
    let ea = arena.get(lower);
    let eb = arena.get(upper);
    proof {
        assert(event_ok(arena@, lower as int) && event_ok(arena@, upper as int));
    }
    let q1 = arena.get(ea.other_event).point;
    let q2 = arena.get(eb.other_event).point;
    let ghost ev = arena@;
    let ghost before = Stores { events: arena@, queue: queue@ };
    let cut_lower: bool = ea.point.is_before(&p) && p.is_before(&q1);
    let cut_upper: bool = eb.point.is_before(&p) && p.is_before(&q2);
    if !cut_lower && !cut_upper {
        Ok(Resolution::Handled)
    } else if p.is_before(&sweep) {
        Err(SweepError::SplitBehindSweep { lower, upper })
    } else {
        if cut_lower {
            divide_segment(arena, queue, lower, p);
            proof {
                lemma_divided(ev, lower as int, p);
                lemma_cut_ahead(before, lower as int, p, sweep);
                if cut_upper {
                    lemma_divided_other(ev, lower as int, p, upper as int, p);
                }
            }
        }
        let ghost ev1 = arena@;
        let ghost middle = Stores { events: arena@, queue: queue@ };
        if cut_upper {
            divide_segment(arena, queue, upper, p);
            proof {
                lemma_divided(ev1, upper as int, p);
                lemma_cut_ahead(middle, upper as int, p, sweep);
                lemma_endpoints_kept_twice(ev, ev1, arena@);
            }
        }
        Ok(Resolution::Relabel)
    }
}

/// Marks two overlapping segments that start at one point.
fn mark_overlap(arena: &mut EventArena, lower: usize, upper: usize)
    requires
        events_wf(old(arena)@),
        lower < old(arena)@.len(),
        upper < old(arena)@.len(),
        lower != upper,
    ensures
        final(arena)@ == marked(old(arena)@, lower as int, upper as int),
{
    let ea = arena.get(lower);
    let eb = arena.get(upper);
    let mut upper_marked = eb;
    upper_marked.edge_type = EdgeType::NonContributing;
    arena.replace(upper, upper_marked);
    let mut lower_marked = ea;
    lower_marked.edge_type = if ea.in_out == eb.in_out {
        EdgeType::SameTransition
    } else {
        EdgeType::DifferentTransition
    };
    arena.replace(lower, lower_marked);
    proof {
        reveal(marked);
        assert(arena@ =~= marked(old(arena)@, lower as int, upper as int));
    }
}

fn split_common_start(
    arena: &mut EventArena,
    queue: &mut EventQueue,
    lower: usize,
    upper: usize,
    hi: Point,
    sweep: Point,
) -> (outcome: Result<Resolution, SweepError>)
    requires
        events_wf(old(arena)@),
        ids_within(old(queue)@, old(arena)@.len()),
        lower < old(arena)@.len(),
        upper < old(arena)@.len(),
        lower != upper,
        old(arena)@[lower as int].is_left,
        old(arena)@[upper as int].is_left,
        old(arena)@[lower as int].point == old(arena)@[upper as int].point,
        hi == earlier(twin_point(old(arena)@, lower as int), twin_point(old(arena)@, upper as int)),
    ensures
        ((Stores { events: final(arena)@, queue: final(queue)@ }), outcome)
            == resolved_common_start(
            (Stores { events: old(arena)@, queue: old(queue)@ }),
            lower as int,
            upper as int,
            hi,
            sweep,
        ),
        events_wf(final(arena)@),
        ids_within(final(queue)@, final(arena)@.len()),
        endpoints_kept(old(arena)@, final(arena)@),
        grown_together(
            (Stores { events: old(arena)@, queue: old(queue)@ }),
            (Stores { events: final(arena)@, queue: final(queue)@ }),
        ),
        stays_ahead(
            (Stores { events: old(arena)@, queue: old(queue)@ }),
            (Stores { events: final(arena)@, queue: final(queue)@ }),
            sweep,
        ),
{
    let ghost ev = arena@;
    proof {
        assert(event_ok(ev, lower as int) && event_ok(ev, upper as int));
    }
    let q1 = arena.get(arena.get(lower).other_event).point;
    let q2 = arena.get(arena.get(upper).other_event).point;
    if q1 == q2 {
        mark_overlap(arena, lower, upper);
        proof {
            lemma_marked(ev, lower as int, upper as int);
            lemma_same_queue_ahead(ev, arena@, queue@, sweep);
        }
        return Ok(Resolution::Relabel);
    }
    if hi.is_before(&sweep) {
        return Err(SweepError::SplitBehindSweep { lower, upper });
    }
    mark_overlap(arena, lower, upper);
    let ghost ev1 = arena@;
    let long: usize = if q1.is_before(&q2) {
        upper
    } else {
        lower
    };
    let ghost middle = Stores { events: arena@, queue: queue@ };
    proof {
        lemma_marked(ev, lower as int, upper as int);
        lemma_same_queue_ahead(ev, ev1, queue@, sweep);
        assert(can_divide(ev, long as int, hi));
        assert(can_divide(ev1, long as int, hi));
    }
    divide_segment(arena, queue, long, hi);
    proof {
        lemma_divided(ev1, long as int, hi);
        lemma_cut_ahead(middle, long as int, hi, sweep);
        lemma_endpoints_kept_twice(ev, ev1, arena@);
    }
    Ok(Resolution::Relabel)
}

fn split_staggered(
    arena: &mut EventArena,
    queue: &mut EventQueue,
    lower: usize,
    upper: usize,
    lo: Point,
    hi: Point,
    sweep: Point,
) -> (outcome: Result<Resolution, SweepError>)
    requires
        events_wf(old(arena)@),
        ids_within(old(queue)@, old(arena)@.len()),
        lower < old(arena)@.len(),
        upper < old(arena)@.len(),
        lower != upper,
        old(arena)@[lower as int].is_left,
        old(arena)@[upper as int].is_left,
        old(arena)@[lower as int].point != old(arena)@[upper as int].point,
        lo == later(old(arena)@[lower as int].point, old(arena)@[upper as int].point),
        hi == earlier(twin_point(old(arena)@, lower as int), twin_point(old(arena)@, upper as int)),
        lo.precedes(hi),
    ensures
        ((Stores { events: final(arena)@, queue: final(queue)@ }), outcome) == resolved_staggered(
            (Stores { events: old(arena)@, queue: old(queue)@ }),
            lower as int,
            upper as int,
            lo,
            hi,
            sweep,
        ),
        events_wf(final(arena)@),
        ids_within(final(queue)@, final(arena)@.len()),
        endpoints_kept(old(arena)@, final(arena)@),
        grown_together(
            (Stores { events: old(arena)@, queue: old(queue)@ }),
            (Stores { events: final(arena)@, queue: final(queue)@ }),
        ),
        stays_ahead(
            (Stores { events: old(arena)@, queue: old(queue)@ }),
            (Stores { events: final(arena)@, queue: final(queue)@ }),
            sweep,
        ),
{
    if lo.is_before(&sweep) {
        return Err(SweepError::SplitBehindSweep { lower, upper });
    }
    let ea = arena.get(lower);
    let eb = arena.get(upper);
    proof {
        assert(event_ok(arena@, lower as int) && event_ok(arena@, upper as int));
    }
    let q1 = arena.get(ea.other_event).point;
    let q2 = arena.get(eb.other_event).point;
    let ghost ev = arena@;
    let starts_first: bool = ea.point.is_before(&eb.point);
    let first: usize = if starts_first {
        lower
    } else {
        upper
    };
    let second: usize = if starts_first {
        upper
    } else {
        lower
    };
    let first_end = if starts_first {
        q1
    } else {
        q2
    };
    let second_end = if starts_first {
        q2
    } else {
        q1
    };
    let ghost before = Stores { events: arena@, queue: queue@ };
    proof {
        assert(can_divide(ev, first as int, lo));
    }
    divide_segment(arena, queue, first, lo);
    proof {
        lemma_divided(ev, first as int, lo);
        lemma_cut_ahead(before, first as int, lo, sweep);
    }
    let ghost ev1 = arena@;
    let ghost middle = Stores { events: arena@, queue: queue@ };
    if first_end != second_end {
        if first_end.is_before(&second_end) {
            proof {
                lemma_divided_other(ev, first as int, lo, second as int, hi);
            }
            divide_segment(arena, queue, second, hi);
            proof {
                lemma_divided(ev1, second as int, hi);
                lemma_cut_ahead(middle, second as int, hi, sweep);
                lemma_endpoints_kept_twice(ev, ev1, arena@);
            }
        } else {
            let tail: usize = arena.len() - 1;
            proof {
                lemma_divided_tail(ev, first as int, lo, hi);
            }
            divide_segment(arena, queue, tail, hi);
            proof {
                lemma_divided(ev1, tail as int, hi);
                lemma_cut_ahead(middle, tail as int, hi, sweep);
                lemma_endpoints_kept_twice(ev, ev1, arena@);
            }
        }
    }
    Ok(Resolution::Relabel)
}

/// Probes the neighbouring segments `lower` and `upper` of the status line
/// while the sweep stands at `sweep`: splits them where they cross or
/// overlap, queues the new events, and says what the caller has to do.
pub fn possible_intersection(
    arena: &mut EventArena,
    queue: &mut EventQueue,
    lower: usize,
    upper: usize,
    sweep: Point,
) -> (outcome: Result<Resolution, SweepError>)
    requires
        events_wf(old(arena)@),
        ids_within(old(queue)@, old(arena)@.len()),
        lower < old(arena)@.len(),
        upper < old(arena)@.len(),
        old(arena)@[lower as int].is_left,
        old(arena)@[upper as int].is_left,
    ensures
        ((Stores { events: final(arena)@, queue: final(queue)@ }), outcome) == resolved(
            (Stores { events: old(arena)@, queue: old(queue)@ }),
            lower as int,
            upper as int,
            sweep,
        ),
        events_wf(final(arena)@),
        ids_within(final(queue)@, final(arena)@.len()),
        endpoints_kept(old(arena)@, final(arena)@),
        grown_together(
            (Stores { events: old(arena)@, queue: old(queue)@ }),
            (Stores { events: final(arena)@, queue: final(queue)@ }),
        ),
        stays_ahead(
            (Stores { events: old(arena)@, queue: old(queue)@ }),
            (Stores { events: final(arena)@, queue: final(queue)@ }),
            sweep,
        ),
{
    if lower == upper {
        return Ok(Resolution::NoAction);
    }
    let ea = arena.get(lower);
    let eb = arena.get(upper);
    proof {
        assert(event_ok(arena@, lower as int) && event_ok(arena@, upper as int));
    }
    let p1 = ea.point;
    let q1 = arena.get(ea.other_event).point;
    let p2 = eb.point;
    let q2 = arena.get(eb.other_event).point;
    proof {
        lemma_overlap_ends(p1, q1, p2, q2);
    }
    match intersection(p1, q1, p2, q2) {
        LineIntersection::Disjoint => Ok(Resolution::NoAction),
        LineIntersection::Single(p) => split_crossing(arena, queue, lower, upper, p, sweep),
        LineIntersection::Overlap(lo, hi) => {
            if ea.polygon == eb.polygon {
                Ok(Resolution::NoAction)
            } else if p1 == p2 {
                split_common_start(arena, queue, lower, upper, hi, sweep)
            } else {
                split_staggered(arena, queue, lower, upper, lo, hi, sweep)
            }
        },
    }
}

} // verus!
