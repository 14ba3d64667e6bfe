//! What holds of every sweep: the status line stays in order, and a sweep
//! has one outcome.

use crate::error::SweepError;
use crate::event::{Operation, SweepEvent};
use crate::status::line_ordered;
use crate::sweep::{is_sweep_result, result_of, run, start_state, sweeps_to, Phase, SweepState};
use vstd::prelude::*;

verus! {

/// After every step of a sweep that has not failed, every segment of the
/// status line lies below the next one.
pub proof fn lemma_line_stays_ordered(
    start: SweepState,
    operation: Operation,
    subject_max_x: int,
    clipping_max_x: int,
    n: nat,
)
    requires
        line_ordered(start.events, start.line),
    ensures
        ({
            let s = run(start, operation, subject_max_x, clipping_max_x, n);
            !(s.phase is Failed) ==> line_ordered(s.events, s.line)
        }),
    decreases n,
{
    if n > 0 {
        lemma_line_stays_ordered(start, operation, subject_max_x, clipping_max_x, (n - 1) as nat);
    }
}

/// A sweep that has come to rest stays where it is.
pub proof fn lemma_rest(
    start: SweepState,
    operation: Operation,
    subject_max_x: int,
    clipping_max_x: int,
    n: nat,
    m: nat,
)
    requires
        run(start, operation, subject_max_x, clipping_max_x, n).phase != Phase::Running,
        n <= m,
    ensures
        run(start, operation, subject_max_x, clipping_max_x, m) == run(
            start,
            operation,
            subject_max_x,
            clipping_max_x,
            n,
        ),
    decreases m,
{
    if n < m {
        lemma_rest(start, operation, subject_max_x, clipping_max_x, n, (m - 1) as nat);
    }
}

/// A sweep comes to rest in one state only.
pub proof fn lemma_sweep_deterministic(
    start: SweepState,
    operation: Operation,
    subject_max_x: int,
    clipping_max_x: int,
    end1: SweepState,
    end2: SweepState,
)
    requires
        sweeps_to(start, operation, subject_max_x, clipping_max_x, end1),
        sweeps_to(start, operation, subject_max_x, clipping_max_x, end2),
    ensures
        end1 == end2,
{
    let n1 = choose|n: nat| run(start, operation, subject_max_x, clipping_max_x, n) == end1;
    let n2 = choose|n: nat| run(start, operation, subject_max_x, clipping_max_x, n) == end2;
    if n1 <= n2 {
        lemma_rest(start, operation, subject_max_x, clipping_max_x, n1, n2);
    } else {
        lemma_rest(start, operation, subject_max_x, clipping_max_x, n2, n1);
    }
}

/// Subdividing the same input twice gives the same events, the same queue
/// and the same result.
pub proof fn lemma_subdivide_deterministic(
    events: Seq<SweepEvent>,
    queue: Seq<usize>,
    operation: Operation,
    subject_max_x: int,
    clipping_max_x: int,
    events1: Seq<SweepEvent>,
    queue1: Seq<usize>,
    result1: Result<Seq<usize>, SweepError>,
    events2: Seq<SweepEvent>,
    queue2: Seq<usize>,
    result2: Result<Seq<usize>, SweepError>,
)
    requires
        is_sweep_result(
            events,
            queue,
            operation,
            subject_max_x,
            clipping_max_x,
            events1,
            queue1,
            result1,
        ),
        is_sweep_result(
            events,
            queue,
            operation,
            subject_max_x,
            clipping_max_x,
            events2,
            queue2,
            result2,
        ),
    ensures
        events1 == events2,
        queue1 == queue2,
        result1 == result2,
{
    let start = start_state(events, queue);
    let end1 = choose|end: SweepState|
        {
            &&& #[trigger] sweeps_to(start, operation, subject_max_x, clipping_max_x, end)
            &&& end.events == events1
            &&& end.queue == queue1
            &&& result_of(end) == result1
        };
    let end2 = choose|end: SweepState|
        {
            &&& #[trigger] sweeps_to(start, operation, subject_max_x, clipping_max_x, end)
            &&& end.events == events2
            &&& end.queue == queue2
            &&& result_of(end) == result2
        };
    lemma_sweep_deterministic(start, operation, subject_max_x, clipping_max_x, end1, end2);
}

} // verus!
