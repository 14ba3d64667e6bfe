//! Sweep events, the arena that stores them, and the order in which the
//! sweep visits them.

use crate::geometry::{
    cross, earlier, later, lemma_forward_turns, lemma_orient_is_cross, orient,
    signed_area, Point,
};
use vstd::prelude::*;

verus! {

/// Which of the two input polygons an edge belongs to.
#[derive(Clone, Copy, Debug, PartialEq, Eq, Structural)]
pub enum Polygon {
    Subject,
    Clipping,
}

/// How an edge relates to an edge of the other polygon that lies on it.
#[derive(Clone, Copy, Debug, PartialEq, Eq, Structural)]
pub enum EdgeType {
    /// No edge of the other polygon lies on this one.
    Normal,
    /// The edge is the second of two coincident edges and adds nothing.
    NonContributing,
    /// Both coincident edges cross their polygons in the same direction.
    SameTransition,
    /// The coincident edges cross their polygons in opposite directions.
    DifferentTransition,
}

/// The boolean operation that the subdivision prepares.
#[derive(Clone, Copy, Debug, PartialEq, Eq, Structural)]
pub enum Operation {
    Intersection,
    Union,
    Difference,
    Xor,
}

/// One endpoint of one segment.
///
/// `point`, `is_left` and `polygon` never change. `other_event` names the
/// event at the other end of the segment and changes when the segment is
/// split. The remaining fields are labels: the sweep writes them at the left
/// end of a segment, and copies them to the right end when it reaches it.
#[derive(Clone, Copy, Debug, PartialEq, Eq, Structural)]
pub struct SweepEvent {
    pub point: Point,
    /// Whether this is the endpoint that the sweep reaches first.
    pub is_left: bool,
    /// The identifier of the event at the other end of the segment.
    pub other_event: usize,
    pub polygon: Polygon,
    pub edge_type: EdgeType,
    /// Whether crossing the segment upwards leaves its own polygon.
    pub in_out: bool,
    /// `in_out` of the nearest segment of the other polygon below this one.
    pub other_in_out: bool,
    /// Whether the segment lies inside the other polygon.
    pub inside_other: bool,
    /// Reserved for the stage that assembles the result; the sweep never
    /// writes it.
    pub in_result: bool,
}

/// An event as it is created: no label set.
pub open spec fn fresh_event(
    point: Point,
    is_left: bool,
    other_event: usize,
    polygon: Polygon,
) -> SweepEvent {
    SweepEvent {
        point,
        is_left,
        other_event,
        polygon,
        edge_type: EdgeType::Normal,
        in_out: false,
        other_in_out: false,
        inside_other: false,
        in_result: false,
    }
}

/// The point of the event at the other end of the segment of event `id`.
pub open spec fn twin_point(ev: Seq<SweepEvent>, id: int) -> Point {
    ev[ev[id].other_event as int].point
}

/// Event `i` is one end of a segment: its twin names it back, has the other
/// role and the same polygon, and the left end comes first in sweep order, so
/// the segment does not have length zero.
pub open spec fn event_ok(ev: Seq<SweepEvent>, i: int) -> bool {
    let e = ev[i];
    let twin = ev[e.other_event as int];
    &&& e.other_event < ev.len()
    &&& twin.other_event == i
    &&& twin.is_left != e.is_left
    &&& twin.polygon == e.polygon
    &&& e.is_left ==> e.point.precedes(twin.point)
    &&& !e.is_left ==> twin.point.precedes(e.point)
}

/// Every event of the arena is one end of a segment.
pub open spec fn events_wf(ev: Seq<SweepEvent>) -> bool {
    forall|i: int| 0 <= i < ev.len() ==> #[trigger] event_ok(ev, i)
}

/// Whether two events are the same endpoint: they differ in labels only.
pub open spec fn same_endpoint(e1: SweepEvent, e2: SweepEvent) -> bool {
    &&& e1.point == e2.point
    &&& e1.is_left == e2.is_left
    &&& e1.other_event == e2.other_event
    &&& e1.polygon == e2.polygon
}

/// Whether `after` holds every event of `before` as the same endpoint of the
/// same polygon: events are only added, relinked and relabelled.
pub open spec fn endpoints_kept(before: Seq<SweepEvent>, after: Seq<SweepEvent>) -> bool {
    &&& before.len() <= after.len()
    &&& forall|i: int|
        0 <= i < before.len() ==> {
            &&& (#[trigger] after[i]).point == before[i].point
            &&& after[i].is_left == before[i].is_left
            &&& after[i].polygon == before[i].polygon
        }
}

/// What holds of the events after two changes in a row that each keep the
/// endpoints.
pub proof fn lemma_endpoints_kept_twice(
    first: Seq<SweepEvent>,
    second: Seq<SweepEvent>,
    third: Seq<SweepEvent>,
)
    requires
        endpoints_kept(first, second),
        endpoints_kept(second, third),
    ensures
        endpoints_kept(first, third),
{
    assert forall|i: int| 0 <= i < first.len() implies {
        &&& (#[trigger] third[i]).point == first[i].point
        &&& third[i].is_left == first[i].is_left
        &&& third[i].polygon == first[i].polygon
    } by {
        assert(second[i].point == first[i].point);
    }
}

/// Writing labels keeps the arena well formed.
pub proof fn lemma_relabel_keeps_wf(ev: Seq<SweepEvent>, id: int, e: SweepEvent)
    requires
        events_wf(ev),
        0 <= id < ev.len(),
        same_endpoint(ev[id], e),
    ensures
        events_wf(ev.update(id, e)),
{
    let ev2 = ev.update(id, e);
    assert forall|i: int| 0 <= i < ev2.len() implies #[trigger] event_ok(ev2, i) by {
        assert(event_ok(ev, i));
    }
}

/// Whether every identifier of `ids` names one of the first `n` events.
pub open spec fn ids_within(ids: Seq<usize>, n: nat) -> bool {
    forall|i: int| 0 <= i < ids.len() ==> #[trigger] ids[i] < n
}

/// Whether `i` is the first place at which `id` stands in `ids`.
pub open spec fn is_first_index(ids: Seq<usize>, id: usize, i: int) -> bool {
    &&& 0 <= i < ids.len()
    &&& ids[i] == id
    &&& forall|j: int| 0 <= j < i ==> #[trigger] ids[j] != id
}

/// The first place at which `id` stands in `ids`, if it stands there at all.
pub open spec fn first_index(ids: Seq<usize>, id: usize) -> int {
    choose|i: int| is_first_index(ids, id, i)
}

pub proof fn lemma_first_index(ids: Seq<usize>, id: usize, i: int)
    requires
        is_first_index(ids, id, i),
    ensures
        first_index(ids, id) == i,
{
    let c = first_index(ids, id);
    assert(is_first_index(ids, id, c));
    if c < i {
        assert(ids[c] != id);
    }
    if i < c {
        assert(ids[i] != id);
    }
}

/// The order of the event queue: whether event `a` is visited before event `b`.
///
/// Events are ordered by point. At one point a right endpoint comes before a
/// left endpoint. Two endpoints of the same role at one point are ordered by
/// the slope of their segments, the lower segment first; then the subject
/// polygon comes first; then the smaller identifier.
pub open spec fn event_before(ev: Seq<SweepEvent>, a: int, b: int) -> bool {
    let ea = ev[a];
    let eb = ev[b];
    if ea.point != eb.point {
        ea.point.precedes(eb.point)
    } else if ea.is_left != eb.is_left {
        !ea.is_left
    } else {
        let turn = orient(ea.point, twin_point(ev, a), twin_point(ev, b));
        if turn != 0 {
            (turn > 0) == ea.is_left
        } else if ea.polygon != eb.polygon {
            ea.polygon == Polygon::Subject
        } else {
            a < b
        }
    }
}

proof fn lemma_cross_negate(ux: int, uy: int, vx: int, vy: int)
    by (nonlinear_arith)
    ensures
        cross(-ux, -uy, -vx, -vy) == cross(ux, uy, vx, vy),
        cross(vx, vy, ux, uy) == -cross(ux, uy, vx, vy),
{
}

/// No event comes before itself, and of two different events exactly one
/// comes before the other.
pub proof fn lemma_event_order_total(ev: Seq<SweepEvent>, a: int, b: int)
    requires
        events_wf(ev),
        0 <= a < ev.len(),
        0 <= b < ev.len(),
    ensures
        !event_before(ev, a, a),
        a != b ==> event_before(ev, a, b) != event_before(ev, b, a),
{
    let p = ev[a].point;
    assert(event_ok(ev, a) && event_ok(ev, b));
    lemma_orient_is_cross(p, twin_point(ev, a), twin_point(ev, a));
    lemma_orient_is_cross(p, twin_point(ev, a), twin_point(ev, b));
}

/// The order of the event queue is transitive.
pub proof fn lemma_event_order_transitive(ev: Seq<SweepEvent>, a: int, b: int, c: int)
    requires
        events_wf(ev),
        0 <= a < ev.len(),
        0 <= b < ev.len(),
        0 <= c < ev.len(),
        event_before(ev, a, b),
        event_before(ev, b, c),
    ensures
        event_before(ev, a, c),
{
    let ea = ev[a];
    let eb = ev[b];
    let ec = ev[c];
    if ea.point == eb.point && eb.point == ec.point && ea.is_left == eb.is_left && eb.is_left
        == ec.is_left {
        let p = ea.point;
        let ta = twin_point(ev, a);
        let tb = twin_point(ev, b);
        let tc = twin_point(ev, c);
        assert(event_ok(ev, a) && event_ok(ev, b) && event_ok(ev, c));
        lemma_orient_is_cross(p, ta, tb);
        lemma_orient_is_cross(p, tb, tc);
        lemma_orient_is_cross(p, ta, tc);
        let ux = ta.x - p.x;
        let uy = ta.y - p.y;
        let vx = tb.x - p.x;
        let vy = tb.y - p.y;
        let wx = tc.x - p.x;
        let wy = tc.y - p.y;
        if ea.is_left {
            lemma_forward_turns(ux, uy, vx, vy, wx, wy);
        } else {
            lemma_forward_turns(-wx, -wy, -vx, -vy, -ux, -uy);
            lemma_cross_negate(wx, wy, vx, vy);
            lemma_cross_negate(vx, vy, ux, uy);
            lemma_cross_negate(wx, wy, ux, uy);
            lemma_cross_negate(ux, uy, vx, vy);
            lemma_cross_negate(vx, vy, wx, wy);
            lemma_cross_negate(ux, uy, wx, wy);
        }
    }
}

/// The store of all sweep events. An event is named by its index, which
/// never changes.
pub struct EventArena {
    events: Vec<SweepEvent>,
}

impl View for EventArena {
    type V = Seq<SweepEvent>;

    closed spec fn view(&self) -> Seq<SweepEvent> {
        self.events@
    }
}

impl EventArena {
    pub fn new() -> (arena: EventArena)
        ensures
            arena@ == Seq::<SweepEvent>::empty(),
            events_wf(arena@),
    {
        EventArena { events: Vec::new() }
    }

    pub fn len(&self) -> (n: usize)
        ensures
            n == self@.len(),
    {
        self.events.len()
    }

    /// An arena holds no more events than there are identifiers.
    pub proof fn lemma_len_bounded(&self)
        ensures
            self@.len() <= usize::MAX,
    {
        let n = self.events.len();
    }

    /// The event with identifier `id`.
    pub fn get(&self, id: usize) -> (e: SweepEvent)
        requires
            id < self@.len(),
        ensures
            e == self@[id as int],
    {
        self.events[id]
    }

    /// Whether every event is one end of a segment. An arena that was filled
    /// through `add_segment` always is.
    pub fn is_well_formed(&self) -> (ok: bool)
        ensures
            ok == events_wf(self@),
    {
        let n: usize = self.events.len();
        let mut i: usize = 0;
        while i < n
            invariant
                n == self.events@.len(),
                0 <= i <= n,
                forall|k: int| 0 <= k < i ==> #[trigger] event_ok(self.events@, k),
            decreases n - i,
        {
            let e = self.events[i];
            if e.other_event >= n {
                proof {
                    assert(!event_ok(self@, i as int));
                }
                return false;
            }
            let twin = self.events[e.other_event];
            let in_order = if e.is_left {
                e.point.is_before(&twin.point)
            } else {
                twin.point.is_before(&e.point)
            };
            if twin.other_event != i || twin.is_left == e.is_left || twin.polygon != e.polygon
                || !in_order {
                proof {
                    assert(!event_ok(self@, i as int));
                }
                return false;
            }
            i = i + 1;
        }
        true
    }

    /// Stores the two events of the segment between `p` and `q` and returns
    /// the identifier of its left event; the right event is the next one.
    /// A segment of length zero is not stored.
    pub fn add_segment(&mut self, p: Point, q: Point, polygon: Polygon) -> (id: Option<usize>)
        requires
            events_wf(old(self)@),
        ensures
            events_wf(final(self)@),
            p == q ==> id is None && final(self)@ == old(self)@,
            p != q ==> id == Some(old(self)@.len() as usize) && final(self)@ == old(self)@.push(
                fresh_event(earlier(p, q), true, (old(self)@.len() + 1) as usize, polygon),
            ).push(fresh_event(later(p, q), false, old(self)@.len() as usize, polygon)),
    {
        if p == q {
            return None;
        }
        let first = if q.is_before(&p) {
            q
        } else {
            p
        };
        let last = if p.is_before(&q) {
            q
        } else {
            p
        };
        let left_id: usize = self.events.len();
        self.events.push(
            SweepEvent {
                point: first,
                is_left: true,
                other_event: left_id,
                polygon,
                edge_type: EdgeType::Normal,
                in_out: false,
                other_in_out: false,
                inside_other: false,
                in_result: false,
            },
        );
        let right_id: usize = self.events.len();
        self.events.push(
            SweepEvent {
                point: last,
                is_left: false,
                other_event: left_id,
                polygon,
                edge_type: EdgeType::Normal,
                in_out: false,
                other_in_out: false,
                inside_other: false,
                in_result: false,
            },
        );
        let mut left = self.events[left_id];
        left.other_event = right_id;
        self.events.set(left_id, left);
        proof {
            assert(self@ =~= old(self)@.push(
                fresh_event(earlier(p, q), true, (old(self)@.len() + 1) as usize, polygon),
            ).push(fresh_event(later(p, q), false, old(self)@.len() as usize, polygon)));
            assert forall|i: int| 0 <= i < self@.len() implies #[trigger] event_ok(self@, i) by {
                if i < old(self)@.len() {
                    assert(event_ok(old(self)@, i));
                }
            }
        }
        Some(left_id)
    }

    /// Records whether the segment of event `id` belongs to the result. The
    /// sweep neither reads nor writes this mark.
    pub fn set_in_result(&mut self, id: usize, in_result: bool)
        requires
            id < old(self)@.len(),
        ensures
            final(self)@ == old(self)@.update(
                id as int,
                (SweepEvent { in_result, ..old(self)@[id as int] }),
            ),
            events_wf(old(self)@) ==> events_wf(final(self)@),
    {
        let mut e = self.events[id];
        e.in_result = in_result;
        self.events.set(id, e);
        proof {
            if events_wf(old(self)@) {
                lemma_relabel_keeps_wf(old(self)@, id as int, e);
            }
        }
    }

    /// Replaces the event with identifier `id`.
    pub(crate) fn replace(&mut self, id: usize, e: SweepEvent)
        requires
            id < old(self)@.len(),
        ensures
            final(self)@ == old(self)@.update(id as int, e),
    {
        self.events.set(id, e);
    }

    /// Stores one more event; its identifier is the length before the call.
    pub(crate) fn append(&mut self, e: SweepEvent)
        ensures
            final(self)@ == old(self)@.push(e),
    {
        self.events.push(e);
    }

    /// Whether event `a` comes before event `b` in the order of the queue.
    pub fn precedes(&self, a: usize, b: usize) -> (r: bool)
        requires
            events_wf(self@),
            a < self@.len(),
            b < self@.len(),
        ensures
            r == event_before(self@, a as int, b as int),
    {
        let ea = self.events[a];
        let eb = self.events[b];
        if ea.point != eb.point {
            ea.point.is_before(&eb.point)
        } else if ea.is_left != eb.is_left {
            !ea.is_left
        } else {
            proof {
                assert(event_ok(self@, a as int) && event_ok(self@, b as int));
            }
            let turn: i128 = signed_area(
                ea.point,
                self.events[ea.other_event].point,
                self.events[eb.other_event].point,
            );
            if turn != 0 {
                (turn > 0) == ea.is_left
            } else if ea.polygon != eb.polygon {
                ea.polygon == Polygon::Subject
            } else {
                a < b
            }
        }
    }
}

} // verus!
