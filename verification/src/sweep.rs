//! The sweep: events are taken from the queue in order, the status line
//! follows the sweep line, and neighbours of the status line are probed for
//! crossings.

use crate::error::SweepError;
use crate::event::{
    endpoints_kept, event_before, events_wf, first_index, ids_within, is_first_index,
    lemma_endpoints_kept_twice, EventArena, Operation, SweepEvent,
};
use crate::fields::{compute_fields, copy_labels, labels_copied, relabelled};
use crate::geometry::{BoundingBox, Point};
use crate::queue::{first_event, is_first, EventQueue};
use crate::resolve::{
    grown_together, lemma_same_queue_ahead, possible_intersection, queue_ahead, resolved,
    stays_ahead, Resolution, Stores,
};
use crate::status::{
    above_of, below_of, first_break, insertion_index, line_ordered, line_without, StatusLine,
};
use vstd::prelude::*;

verus! {

/// Where a sweep stands.
#[derive(Clone, Copy, Debug, PartialEq, Eq, Structural)]
pub enum Phase {
    /// Events may be left to visit.
    Running,
    /// The queue is empty, or the sweep has passed the bound of the operation.
    Finished,
    /// An invariant was found broken.
    Failed(SweepError),
}

/// The whole of a sweep between two events.
pub struct SweepState {
    pub events: Seq<SweepEvent>,
    /// The events yet to visit.
    pub queue: Seq<usize>,
    /// The segments that cross the sweep line, from the lowest.
    pub line: Seq<usize>,
    /// The events visited so far, in the order of their visit.
    pub output: Seq<usize>,
    pub phase: Phase,
}

/// Whether every entry of the status line names a left event of the arena.
pub open spec fn line_wf(ev: Seq<SweepEvent>, line: Seq<usize>) -> bool {
    &&& ids_within(line, ev.len())
    &&& forall|i: int| 0 <= i < line.len() ==> ev[(#[trigger] line[i]) as int].is_left
}

/// Whether a sweep for `operation` ends at an event with abscissa `x`: past
/// both polygons for an intersection, past the subject for a difference.
pub open spec fn stops_early(
    operation: Operation,
    x: int,
    subject_max_x: int,
    clipping_max_x: int,
) -> bool {
    ||| operation == Operation::Intersection && (x > subject_max_x || x > clipping_max_x)
    ||| operation == Operation::Difference && x > subject_max_x
}

/// The stores after the neighbours `lower` and `upper` are probed, and the
/// failure if there is one. Where the probe asks for it, the labels of
/// `lower` are computed again from `lowest`, then those of `upper` from
/// `lower`.
pub open spec fn probed(
    s: Stores,
    line: Seq<usize>,
    lower: usize,
    upper: usize,
    lowest: Option<usize>,
    sweep: Point,
) -> (Stores, Option<SweepError>) {
    let r = resolved(s, lower as int, upper as int, sweep);
    match r.1 {
        Err(e) => (r.0, Some(e)),
        Ok(Resolution::Relabel) => (
            Stores {
                events: relabelled(
                    relabelled(r.0.events, line, lower, lowest),
                    line,
                    upper,
                    Some(lower),
                ),
                queue: r.0.queue,
            },
            None,
        ),
        Ok(_) => (r.0, None),
    }
}

/// The neighbour of place `place` one step down the line.
pub open spec fn neighbour_below(line: Seq<usize>, place: int) -> Option<usize> {
    if 0 < place <= line.len() {
        Some(line[place - 1])
    } else {
        None
    }
}

/// The neighbour of place `place` one step up the line.
pub open spec fn neighbour_above(line: Seq<usize>, place: int) -> Option<usize> {
    if 0 <= place && place + 1 < line.len() {
        Some(line[place + 1])
    } else {
        None
    }
}

/// The stores and the line after the sweep reaches the left event `e`: its
/// segment enters the line and is labelled from the segment below it, then
/// it is probed against the segment above and against the segment below.
pub open spec fn entered(s: Stores, line: Seq<usize>, e: usize) -> (
    Stores,
    Seq<usize>,
    Option<SweepError>,
) {
    let place = insertion_index(s.events, line, e);
    let line1 = line.insert(place, e);
    let below = neighbour_below(line1, place);
    let above = neighbour_above(line1, place);
    let sweep = s.events[e as int].point;
    let s0 = Stores { events: relabelled(s.events, line1, e, below), queue: s.queue };
    let up = match above {
        Some(nx) => probed(s0, line1, e, nx, below, sweep),
        None => (s0, None),
    };
    if up.1 is Some {
        (up.0, line1, up.1)
    } else {
        let down = match below {
            Some(pv) => probed(up.0, line1, pv, e, below_of(line1, pv), sweep),
            None => up,
        };
        (down.0, line1, down.1)
    }
}

/// The stores and the line after the sweep reaches the right event `e`: the
/// two neighbours of its segment are probed against each other, the segment
/// leaves the line, and `e` takes the labels of its left end. No label is
/// computed again here. A segment that is not in the line is a failure.
pub open spec fn departed(s: Stores, line: Seq<usize>, e: usize) -> (
    Stores,
    Seq<usize>,
    Option<SweepError>,
) {
    let twin = s.events[e as int].other_event;
    let sweep = s.events[e as int].point;
    if !line.contains(twin) {
        (s, line, Some(SweepError::TwinNotActive { event: e }))
    } else {
        let r = match (below_of(line, twin), above_of(line, twin)) {
            (Some(pv), Some(nx)) => resolved(s, pv as int, nx as int, sweep),
            _ => (s, Ok(Resolution::NoAction)),
        };
        match r.1 {
            Err(err) => (r.0, line, Some(err)),
            Ok(_) => (
                Stores { events: labels_copied(r.0.events, e, twin), queue: r.0.queue },
                line_without(line, twin),
                None,
            ),
        }
    }
}

/// The phase after an event is dealt with: the failure if there was one,
/// else a failure if the line is out of order, else the sweep goes on.
pub open spec fn phase_after(
    ev: Seq<SweepEvent>,
    line: Seq<usize>,
    failure: Option<SweepError>,
) -> Phase {
    match failure {
        Some(e) => Phase::Failed(e),
        None => if line_ordered(ev, line) {
            Phase::Running
        } else {
            Phase::Failed(
                SweepError::OrderViolated {
                    lower: line[first_break(ev, line)],
                    upper: line[first_break(ev, line) + 1],
                },
            )
        },
    }
}

/// One step of the sweep: the first pending event is taken from the queue
/// and recorded; unless the sweep ends there, its segment enters or leaves
/// the line, and the order of the line is checked.
pub open spec fn step(
    s: SweepState,
    operation: Operation,
    subject_max_x: int,
    clipping_max_x: int,
) -> SweepState {
    if s.phase != Phase::Running {
        s
    } else if s.queue.len() == 0 {
        SweepState { phase: Phase::Finished, ..s }
    } else {
        let e = first_event(s.events, s.queue);
        let queue = s.queue.remove(first_index(s.queue, e));
        let output = s.output.push(e);
        if stops_early(operation, s.events[e as int].point.x as int, subject_max_x, clipping_max_x) {
            SweepState { queue, output, phase: Phase::Finished, ..s }
        } else {
            let stores = Stores { events: s.events, queue };
            let after = if s.events[e as int].is_left {
                entered(stores, s.line, e)
            } else {
                departed(stores, s.line, e)
            };
            SweepState {
                events: after.0.events,
                queue: after.0.queue,
                line: after.1,
                output,
                phase: phase_after(after.0.events, after.1, after.2),
            }
        }
    }
}

/// The state after `n` steps.
pub open spec fn run(
    s: SweepState,
    operation: Operation,
    subject_max_x: int,
    clipping_max_x: int,
    n: nat,
) -> SweepState
    decreases n,
{
    if n == 0 {
        s
    } else {
        step(
            run(s, operation, subject_max_x, clipping_max_x, (n - 1) as nat),
            operation,
            subject_max_x,
            clipping_max_x,
        )
    }
}

/// The state in which a sweep starts: nothing visited, no segment active.
pub open spec fn start_state(events: Seq<SweepEvent>, queue: Seq<usize>) -> SweepState {
    SweepState {
        events,
        queue,
        line: Seq::empty(),
        output: Seq::empty(),
        phase: Phase::Running,
    }
}

/// Whether a sweep from `start` comes to rest in the state `end`.
pub open spec fn sweeps_to(
    start: SweepState,
    operation: Operation,
    subject_max_x: int,
    clipping_max_x: int,
    end: SweepState,
) -> bool {
    &&& end.phase != Phase::Running
    &&& exists|n: nat| run(start, operation, subject_max_x, clipping_max_x, n) == end
}

/// A bound on the steps that a sweep can still take: every step takes one
/// event from the queue, and every split adds two to the queue and to the
/// arena, which cannot hold more events than there are identifiers.
pub open spec fn work_left(events: nat, pending: nat) -> int {
    2 * (usize::MAX - events) + pending
}

/// Whether the events of `output` stand in the order of their points: none
/// lies at a point that comes before the point of an earlier one.
#[verifier::opaque]
pub open spec fn visited_in_order(ev: Seq<SweepEvent>, output: Seq<usize>) -> bool {
    forall|i: int, j: int|
        0 <= i < j < output.len() ==> !ev[(#[trigger] output[j]) as int].point.precedes(
            ev[(#[trigger] output[i]) as int].point,
        )
}

/// What holds between two steps of a sweep: the visited events stand in the
/// order of their points, and no pending event lies behind the last of them.
pub open spec fn sweep_inv(ev: Seq<SweepEvent>, queue: Seq<usize>, output: Seq<usize>) -> bool {
    &&& ids_within(output, ev.len())
    &&& visited_in_order(ev, output)
    &&& output.len() > 0 ==> queue_ahead(ev, queue, ev[output.last() as int].point)
}

/// Taking the first pending event keeps the order of the visit, and leaves
/// no pending event behind the sweep.
pub proof fn lemma_visit(
    ev: Seq<SweepEvent>,
    queue: Seq<usize>,
    output: Seq<usize>,
    e: usize,
    i: int,
)
    requires
        ids_within(queue, ev.len()),
        sweep_inv(ev, queue, output),
        is_first(ev, queue, e),
        is_first_index(queue, e, i),
    ensures
        sweep_inv(ev, queue.remove(i), output.push(e)),
        queue_ahead(ev, queue.remove(i), ev[e as int].point),
{
    reveal(visited_in_order);
    reveal(queue_ahead);
    let rest = queue.remove(i);
    let visited = output.push(e);
    let here = ev[e as int].point;
    assert forall|k: int| 0 <= k < rest.len() implies !ev[(#[trigger] rest[k]) as int].point.precedes(
        here,
    ) by {
        let w = if k < i {
            k
        } else {
            k + 1
        };
        assert(rest[k] == queue[w]);
        if queue[w] != e {
            assert(event_before(ev, e as int, queue[w] as int));
        }
    }
    assert(queue[i] == e);
    assert forall|a: int, b: int| 0 <= a < b < visited.len() implies !ev[(
    #[trigger] visited[b]) as int].point.precedes(ev[(#[trigger] visited[a]) as int].point) by {
        if b == output.len() {
            let last = output.last();
            assert(visited[a] == output[a]);
            assert(!ev[queue[i] as int].point.precedes(ev[last as int].point));
            if a < output.len() - 1 {
                assert(!ev[output[output.len() - 1] as int].point.precedes(
                    ev[output[a] as int].point,
                ));
            }
        } else {
            assert(visited[a] == output[a] && visited[b] == output[b]);
        }
    }
    assert forall|k: int| 0 <= k < visited.len() implies (#[trigger] visited[k]) < ev.len() by {
        if k < output.len() {
            assert(visited[k] == output[k]);
        }
    }
}

/// Relinking and relabelling events keeps the order of the visit.
pub proof fn lemma_visit_kept(before: Seq<SweepEvent>, after: Seq<SweepEvent>, output: Seq<usize>)
    requires
        endpoints_kept(before, after),
        ids_within(output, before.len()),
        visited_in_order(before, output),
    ensures
        visited_in_order(after, output),
        ids_within(output, after.len()),
{
    reveal(visited_in_order);
    assert forall|i: int, j: int| 0 <= i < j < output.len() implies !after[(
    #[trigger] output[j]) as int].point.precedes(after[(#[trigger] output[i]) as int].point) by {
        let a = output[i] as int;
        let b = output[j] as int;
        assert(after[a].point == before[a].point);
        assert(after[b].point == before[b].point);
    }
}

pub proof fn lemma_line_wf_kept(before: Seq<SweepEvent>, after: Seq<SweepEvent>, line: Seq<usize>)
    requires
        line_wf(before, line),
        endpoints_kept(before, after),
    ensures
        line_wf(after, line),
{
    assert forall|i: int| 0 <= i < line.len() implies after[(#[trigger] line[i]) as int].is_left by {
        let id = line[i] as int;
        assert(after[id].is_left == before[id].is_left);
    }
}

/// Whether a sweep for `operation` ends at an event with abscissa `x`.
pub fn past_bound(operation: Operation, x: i32, subject_max_x: i32, clipping_max_x: i32) -> (stop:
    bool)
    ensures
        stop == stops_early(operation, x as int, subject_max_x as int, clipping_max_x as int),
{
    match operation {
        Operation::Intersection => x > subject_max_x || x > clipping_max_x,
        Operation::Difference => x > subject_max_x,
        _ => false,
    }
}

/// Probes two neighbours of the line and, where the probe asks for it,
/// computes the labels of both again.
fn probe(
    arena: &mut EventArena,
    queue: &mut EventQueue,
    line: &StatusLine,
    lower: usize,
    upper: usize,
    lowest: Option<usize>,
    sweep: Point,
) -> (failure: Option<SweepError>)
    requires
        events_wf(old(arena)@),
        ids_within(old(queue)@, old(arena)@.len()),
        line_wf(old(arena)@, line@),
        lower < old(arena)@.len(),
        upper < old(arena)@.len(),
        old(arena)@[lower as int].is_left,
        old(arena)@[upper as int].is_left,
        lowest is Some ==> lowest.unwrap() < old(arena)@.len(),
    ensures
        ((Stores { events: final(arena)@, queue: final(queue)@ }), failure) == probed(
            (Stores { events: old(arena)@, queue: old(queue)@ }),
            line@,
            lower,
            upper,
            lowest,
            sweep,
        ),
        events_wf(final(arena)@),
        ids_within(final(queue)@, final(arena)@.len()),
        line_wf(final(arena)@, line@),
        endpoints_kept(old(arena)@, final(arena)@),
        grown_together(
            (Stores { events: old(arena)@, queue: old(queue)@ }),
            (Stores { events: final(arena)@, queue: final(queue)@ }),
        ),
        stays_ahead(
            (Stores { events: old(arena)@, queue: old(queue)@ }),
            (Stores { events: final(arena)@, queue: final(queue)@ }),
            sweep,
        ),
{
    let outcome = possible_intersection(arena, queue, lower, upper, sweep);
    let ghost mid = arena@;
    proof {
        lemma_line_wf_kept(old(arena)@, mid, line@);
    }
    match outcome {
        Err(e) => Some(e),
        Ok(Resolution::Relabel) => {
            compute_fields(arena, line, lower, lowest);
            let ghost relabelled_once = arena@;
            compute_fields(arena, line, upper, Some(lower));
            proof {
                lemma_endpoints_kept_twice(old(arena)@, mid, relabelled_once);
                lemma_endpoints_kept_twice(old(arena)@, relabelled_once, arena@);
                lemma_endpoints_kept_twice(mid, relabelled_once, arena@);
                lemma_line_wf_kept(old(arena)@, arena@, line@);
                lemma_same_queue_ahead(mid, arena@, queue@, sweep);
            }
            None
        },
        Ok(_) => None,
    }
}

/// Deals with the left event `e`: its segment enters the line, is labelled
/// and is probed against both neighbours.
fn enter(arena: &mut EventArena, queue: &mut EventQueue, line: &mut StatusLine, e: usize) -> (failure:
    Option<SweepError>)
    requires
        events_wf(old(arena)@),
        ids_within(old(queue)@, old(arena)@.len()),
        line_wf(old(arena)@, old(line)@),
        e < old(arena)@.len(),
        old(arena)@[e as int].is_left,
    ensures
        ((Stores { events: final(arena)@, queue: final(queue)@ }), final(line)@, failure)
            == entered((Stores { events: old(arena)@, queue: old(queue)@ }), old(line)@, e),
        events_wf(final(arena)@),
        ids_within(final(queue)@, final(arena)@.len()),
        line_wf(final(arena)@, final(line)@),
        grown_together(
            (Stores { events: old(arena)@, queue: old(queue)@ }),
            (Stores { events: final(arena)@, queue: final(queue)@ }),
        ),
        endpoints_kept(old(arena)@, final(arena)@),
        stays_ahead(
            (Stores { events: old(arena)@, queue: old(queue)@ }),
            (Stores { events: final(arena)@, queue: final(queue)@ }),
            old(arena)@[e as int].point,
        ),
{
    let sweep = arena.get(e).point;
    let place: usize = line.insert(arena, e);
    let below: Option<usize> = if place > 0 {
        Some(line.get(place - 1))
    } else {
        None
    };
    let above: Option<usize> = if line.len() - place > 1 {
        Some(line.get(place + 1))
    } else {
        None
    };
    proof {
        assert(line_wf(arena@, line@)) by {
            assert forall|i: int| 0 <= i < line@.len() implies (#[trigger] line@[i]) < arena@.len()
                && arena@[line@[i] as int].is_left by {
                if i < place {
                    assert(line@[i] == old(line)@[i]);
                } else if i > place {
                    assert(line@[i] == old(line)@[i - 1]);
                }
            }
        }
        assert(below == neighbour_below(line@, place as int));
        assert(above == neighbour_above(line@, place as int));
        if place > 0 {
            assert(line@[place - 1] < arena@.len());
        }
        if line@.len() - place > 1 {
            assert(line@[place + 1] < arena@.len());
        }
    }
    compute_fields(arena, line, e, below);
    let ghost labelled_once = arena@;
    proof {
        lemma_line_wf_kept(old(arena)@, arena@, line@);
        lemma_same_queue_ahead(old(arena)@, labelled_once, queue@, sweep);
    }
    match above {
        Some(nx) => {
            let failed = probe(arena, queue, line, e, nx, below, sweep);
            proof {
                lemma_endpoints_kept_twice(old(arena)@, labelled_once, arena@);
            }
            if failed.is_some() {
                return failed;
            }
        },
        None => {},
    }
    let ghost probed_once = arena@;
    match below {
        Some(pv) => {
            let lowest = line.prev(pv);
            proof {
                if lowest is Some {
                    let k = choose|k: int| 0 <= k < line@.len() && line@[k] == lowest.unwrap();
                    assert(line@[k] < arena@.len());
                }
            }
            let failed = probe(arena, queue, line, pv, e, lowest, sweep);
            proof {
                lemma_endpoints_kept_twice(old(arena)@, probed_once, arena@);
            }
            failed
        },
        None => None,
    }
}

/// Deals with the right event `e`: the neighbours of its segment are probed
/// against each other, the segment leaves the line, and `e` takes the labels
/// of its left end.
fn leave(arena: &mut EventArena, queue: &mut EventQueue, line: &mut StatusLine, e: usize) -> (failure:
    Option<SweepError>)
    requires
        events_wf(old(arena)@),
        ids_within(old(queue)@, old(arena)@.len()),
        line_wf(old(arena)@, old(line)@),
        e < old(arena)@.len(),
    ensures
        ((Stores { events: final(arena)@, queue: final(queue)@ }), final(line)@, failure)
            == departed((Stores { events: old(arena)@, queue: old(queue)@ }), old(line)@, e),
        events_wf(final(arena)@),
        ids_within(final(queue)@, final(arena)@.len()),
        line_wf(final(arena)@, final(line)@),
        grown_together(
            (Stores { events: old(arena)@, queue: old(queue)@ }),
            (Stores { events: final(arena)@, queue: final(queue)@ }),
        ),
        endpoints_kept(old(arena)@, final(arena)@),
        stays_ahead(
            (Stores { events: old(arena)@, queue: old(queue)@ }),
            (Stores { events: final(arena)@, queue: final(queue)@ }),
            old(arena)@[e as int].point,
        ),
{
    let event = arena.get(e);
    let twin: usize = event.other_event;
    let sweep = event.point;
    let place: usize = match line.position(twin) {
        Some(i) => i,
        None => {
            return Some(SweepError::TwinNotActive { event: e });
        },
    };
    if place > 0 && line.len() - place > 1 {
        let pv: usize = line.get(place - 1);
        let nx: usize = line.get(place + 1);
        proof {
            assert(line@[place - 1] < arena@.len());
            assert(line@[place + 1] < arena@.len());
        }
        match possible_intersection(arena, queue, pv, nx, sweep) {
            Err(err) => {
                proof {
                    lemma_line_wf_kept(old(arena)@, arena@, line@);
                }
                return Some(err);
            },
            Ok(_) => {},
        }
    }
    line.remove(twin);
    let ghost probed_once = arena@;
    proof {
        lemma_line_wf_kept(old(arena)@, arena@, old(line)@);
        assert(old(line)@[place as int] == twin);
    }
    copy_labels(arena, e, twin);
    proof {
        lemma_endpoints_kept_twice(old(arena)@, probed_once, arena@);
        lemma_same_queue_ahead(probed_once, arena@, queue@, sweep);
        lemma_line_wf_kept(old(arena)@, arena@, old(line)@);
        assert forall|i: int| 0 <= i < line@.len() implies (#[trigger] line@[i]) < arena@.len()
            && arena@[line@[i] as int].is_left by {
            if i < place {
                assert(line@[i] == old(line)@[i]);
            } else {
                assert(line@[i] == old(line)@[i + 1]);
            }
        }
    }
    None
}

/// Takes one step of the sweep and says where the sweep then stands.
pub fn advance(
    arena: &mut EventArena,
    queue: &mut EventQueue,
    line: &mut StatusLine,
    output: &mut Vec<usize>,
    operation: Operation,
    subject_max_x: i32,
    clipping_max_x: i32,
) -> (phase: Phase)
    requires
        events_wf(old(arena)@),
        ids_within(old(queue)@, old(arena)@.len()),
        line_wf(old(arena)@, old(line)@),
    ensures
        (SweepState {
            events: final(arena)@,
            queue: final(queue)@,
            line: final(line)@,
            output: final(output)@,
            phase,
        }) == step(
            (SweepState {
                events: old(arena)@,
                queue: old(queue)@,
                line: old(line)@,
                output: old(output)@,
                phase: Phase::Running,
            }),
            operation,
            subject_max_x as int,
            clipping_max_x as int,
        ),
        events_wf(final(arena)@),
        ids_within(final(queue)@, final(arena)@.len()),
        line_wf(final(arena)@, final(line)@),
        phase == Phase::Running ==> line_ordered(final(arena)@, final(line)@),
        phase == Phase::Running ==> work_left(final(arena)@.len(), final(queue)@.len()) < work_left(
            old(arena)@.len(),
            old(queue)@.len(),
        ),
        final(arena)@.len() <= usize::MAX,
        sweep_inv(old(arena)@, old(queue)@, old(output)@) ==> sweep_inv(
            final(arena)@,
            final(queue)@,
            final(output)@,
        ),
{
    proof {
        arena.lemma_len_bounded();
    }
    let e: usize = match queue.pop(arena) {
        Some(e) => e,
        None => {
            return Phase::Finished;
        },
    };
    output.push(e);
    let event = arena.get(e);
    proof {
        if sweep_inv(old(arena)@, old(queue)@, old(output)@) {
            lemma_visit(
                old(arena)@,
                old(queue)@,
                old(output)@,
                e,
                first_index(old(queue)@, e),
            );
        }
    }
    if past_bound(operation, event.point.x, subject_max_x, clipping_max_x) {
        return Phase::Finished;
    }
    let failure = if event.is_left {
        enter(arena, queue, line, e)
    } else {
        leave(arena, queue, line, e)
    };
    proof {
        if sweep_inv(old(arena)@, old(queue)@, old(output)@) {
            lemma_visit_kept(old(arena)@, arena@, output@);
            assert(output@.last() == e);
            assert(arena@[e as int].point == old(arena)@[e as int].point);
        }
    }
    proof {
        arena.lemma_len_bounded();
    }
    match failure {
        Some(err) => Phase::Failed(err),
        None => match line.first_disorder(arena) {
            None => Phase::Running,
            Some(k) => {
                proof {
                    line.lemma_len_bounded();
                }
                Phase::Failed(
                    SweepError::OrderViolated { lower: line.get(k), upper: line.get(k + 1) },
                )
            },
        },
    }
}

/// What a sweep that has come to rest hands back: the events in the order
/// of their visit, or the failure.
pub open spec fn result_of(end: SweepState) -> Result<Seq<usize>, SweepError> {
    match end.phase {
        Phase::Failed(e) => Err(e),
        _ => Ok(end.output),
    }
}

/// Whether `result` and the stores are what a sweep from the given stores
/// comes to rest in.
pub open spec fn is_sweep_result(
    events: Seq<SweepEvent>,
    queue: Seq<usize>,
    operation: Operation,
    subject_max_x: int,
    clipping_max_x: int,
    events_after: Seq<SweepEvent>,
    queue_after: Seq<usize>,
    result: Result<Seq<usize>, SweepError>,
) -> bool {
    exists|end: SweepState|
        {
            &&& #[trigger] sweeps_to(
                start_state(events, queue),
                operation,
                subject_max_x,
                clipping_max_x,
                end,
            )
            &&& end.events == events_after
            &&& end.queue == queue_after
            &&& result_of(end) == result
        }
}

/// The view of what `subdivide` returns.
pub open spec fn result_view(result: Result<Vec<usize>, SweepError>) -> Result<
    Seq<usize>,
    SweepError,
> {
    match result {
        Ok(visited) => Ok(visited@),
        Err(e) => Err(e),
    }
}

/// Subdivides the edges of two polygons: sweeps over the queued events up
/// to the bound that `operation` sets within the bounding boxes `sbbox` of
/// the subject and `cbbox` of the clipping polygon, splits the segments
/// where they cross or overlap, labels them, and returns the events in the
/// order of their visit. The arena then holds every event, split and
/// labelled.
pub fn subdivide(
    arena: &mut EventArena,
    event_queue: &mut EventQueue,
    sbbox: &BoundingBox,
    cbbox: &BoundingBox,
    operation: Operation,
) -> (result: Result<Vec<usize>, SweepError>)
    requires
        events_wf(old(arena)@),
        ids_within(old(event_queue)@, old(arena)@.len()),
    ensures
        is_sweep_result(
            old(arena)@,
            old(event_queue)@,
            operation,
            sbbox.max.x as int,
            cbbox.max.x as int,
            final(arena)@,
            final(event_queue)@,
            result_view(result),
        ),
        events_wf(final(arena)@),
        ids_within(final(event_queue)@, final(arena)@.len()),
        result is Ok ==> visited_in_order(final(arena)@, result.unwrap()@),
{
    let subject_max_x: i32 = sbbox.max.x;
    let clipping_max_x: i32 = cbbox.max.x;
    let mut line = StatusLine::new();
    let mut output: Vec<usize> = Vec::new();
    let ghost start = start_state(arena@, event_queue@);
    let ghost mut steps: nat = 0;
    proof {
        reveal(visited_in_order);
        arena.lemma_len_bounded();
    }
    loop
        invariant
            sweep_inv(arena@, event_queue@, output@),
            events_wf(arena@),
            ids_within(event_queue@, arena@.len()),
            line_wf(arena@, line@),
            arena@.len() <= usize::MAX,
            subject_max_x == sbbox.max.x,
            clipping_max_x == cbbox.max.x,
            start == start_state(old(arena)@, old(event_queue)@),
            run(start, operation, subject_max_x as int, clipping_max_x as int, steps) == (
            SweepState {
                events: arena@,
                queue: event_queue@,
                line: line@,
                output: output@,
                phase: Phase::Running,
            }),
        decreases work_left(arena@.len(), event_queue@.len()),
    {
        let phase = advance(
            arena,
            event_queue,
            &mut line,
            &mut output,
            operation,
            subject_max_x,
            clipping_max_x,
        );
        proof {
            steps = steps + 1;
        }
        let ghost end = SweepState {
            events: arena@,
            queue: event_queue@,
            line: line@,
            output: output@,
            phase,
        };
        assert(run(start, operation, subject_max_x as int, clipping_max_x as int, steps) == end);
        match phase {
            Phase::Running => {},
            Phase::Finished => {
                proof {
                    assert(sweeps_to(
                        start_state(old(arena)@, old(event_queue)@),
                        operation,
                        sbbox.max.x as int,
                        cbbox.max.x as int,
                        end,
                    ));
                    assert(result_of(end) == Ok::<Seq<usize>, SweepError>(output@));
                }
                return Ok(output);
            },
            Phase::Failed(e) => {
                proof {
                    assert(sweeps_to(
                        start_state(old(arena)@, old(event_queue)@),
                        operation,
                        sbbox.max.x as int,
                        cbbox.max.x as int,
                        end,
                    ));
                    assert(result_of(end) == Err::<Seq<usize>, SweepError>(e));
                }
                return Err(e);
            },
        }
    }
}

} // verus!
