//! The status line: the segments that cross the sweep line, from the lowest
//! to the highest, and the order that ranks them.

use crate::event::{
    event_before, event_ok, events_wf, first_index, ids_within, is_first_index,
    lemma_event_order_total, lemma_first_index, twin_point, EventArena, Polygon, SweepEvent,
};
use crate::geometry::{
    lemma_collinear_both_ways, lemma_ends_against_lines, lemma_orient_is_cross, orient,
    signed_area,
};
use vstd::prelude::*;

verus! {

/// Whether the segment of left event `a` lies below the segment of left
/// event `b` where the sweep line crosses both.
///
/// For segments on different lines the segment that starts later decides: it
/// is above the other if its left endpoint is above the other's line, or, if
/// that endpoint lies on the line, if its right endpoint is. Two left
/// endpoints one above the other are ranked by height. Segments on one line
/// are ranked by polygon, the subject below, and then by the order of the
/// event queue.
pub open spec fn segment_below(ev: Seq<SweepEvent>, a: int, b: int) -> bool {
    let p1 = ev[a].point;
    let q1 = twin_point(ev, a);
    let p2 = ev[b].point;
    let q2 = twin_point(ev, b);
    if orient(p1, q1, p2) == 0 && orient(p1, q1, q2) == 0 {
        if ev[a].polygon != ev[b].polygon {
            ev[a].polygon == Polygon::Subject
        } else {
            event_before(ev, a, b)
        }
    } else if p1.x == p2.x && p1.y != p2.y {
        p1.y < p2.y
    } else if p1 == p2 || event_before(ev, a, b) {
        if orient(p1, q1, p2) != 0 {
            orient(p1, q1, p2) > 0
        } else {
            orient(p1, q1, q2) > 0
        }
    } else {
        if orient(p2, q2, p1) != 0 {
            orient(p2, q2, p1) < 0
        } else {
            orient(p2, q2, q1) < 0
        }
    }
}

/// Whether the segment of left event `a` lies below that of left event `b`.
pub fn compare_segments(arena: &EventArena, a: usize, b: usize) -> (below: bool)
    requires
        events_wf(arena@),
        a < arena@.len(),
        b < arena@.len(),
    ensures
        below == segment_below(arena@, a as int, b as int),
{
    let ea = arena.get(a);
    let eb = arena.get(b);
    proof {
        assert(event_ok(arena@, a as int) && event_ok(arena@, b as int));
    }
    let p1 = ea.point;
    let q1 = arena.get(ea.other_event).point;
    let p2 = eb.point;
    let q2 = arena.get(eb.other_event).point;
    let s1: i128 = signed_area(p1, q1, p2);
    let s2: i128 = signed_area(p1, q1, q2);
    if s1 == 0 && s2 == 0 {
        if ea.polygon != eb.polygon {
            ea.polygon == Polygon::Subject
        } else {
            arena.precedes(a, b)
        }
    } else if p1.x == p2.x && p1.y != p2.y {
        p1.y < p2.y
    } else if p1 == p2 || arena.precedes(a, b) {
        if s1 != 0 {
            s1 > 0
        } else {
            s2 > 0
        }
    } else {
        let t1: i128 = signed_area(p2, q2, p1);
        if t1 != 0 {
            t1 < 0
        } else {
            let t2: i128 = signed_area(p2, q2, q1);
            t2 < 0
        }
    }
}

/// Two different segments never tie: exactly one of them lies below the
/// other.
pub proof fn lemma_segments_never_tie(ev: Seq<SweepEvent>, a: int, b: int)
    requires
        events_wf(ev),
        0 <= a < ev.len(),
        0 <= b < ev.len(),
        ev[a].is_left,
        ev[b].is_left,
    ensures
        !segment_below(ev, a, a),
        a != b ==> segment_below(ev, a, b) != segment_below(ev, b, a),
{
    let p1 = ev[a].point;
    let q1 = twin_point(ev, a);
    let p2 = ev[b].point;
    let q2 = twin_point(ev, b);
    assert(event_ok(ev, a) && event_ok(ev, b));
    lemma_event_order_total(ev, a, b);
    lemma_ends_against_lines(p1, q1, p1, q1);
    lemma_collinear_both_ways(p1, q1, p2, q2);
    lemma_orient_is_cross(p1, q1, q2);
    lemma_orient_is_cross(p1, q2, q1);
    lemma_ends_against_lines(p1, q1, p2, q2);
}

/// Whether `i` is the place at which segment `id` enters the line: the first
/// place whose segment lies above it, or the top.
pub open spec fn is_insertion_index(ev: Seq<SweepEvent>, line: Seq<usize>, id: usize, i: int) -> bool {
    &&& 0 <= i <= line.len()
    &&& forall|k: int| 0 <= k < i ==> !segment_below(ev, id as int, #[trigger] line[k] as int)
    &&& i < line.len() ==> segment_below(ev, id as int, line[i] as int)
}

/// The place at which segment `id` enters the line.
pub open spec fn insertion_index(ev: Seq<SweepEvent>, line: Seq<usize>, id: usize) -> int {
    choose|i: int| is_insertion_index(ev, line, id, i)
}

pub proof fn lemma_insertion_index(ev: Seq<SweepEvent>, line: Seq<usize>, id: usize, i: int)
    requires
        is_insertion_index(ev, line, id, i),
    ensures
        insertion_index(ev, line, id) == i,
{
    let c = insertion_index(ev, line, id);
    assert(is_insertion_index(ev, line, id, c));
    if c < i {
        assert(!segment_below(ev, id as int, line[c] as int));
    }
    if i < c {
        assert(!segment_below(ev, id as int, line[i] as int));
    }
}

/// Whether every segment of the line lies below the next one.
pub open spec fn line_ordered(ev: Seq<SweepEvent>, line: Seq<usize>) -> bool {
    forall|i: int|
        0 <= i < line.len() - 1 ==> segment_below(ev, #[trigger] line[i] as int, line[i + 1] as int)
}

/// Whether `k` is the lowest place whose segment does not lie below the next.
pub open spec fn is_first_break(ev: Seq<SweepEvent>, line: Seq<usize>, k: int) -> bool {
    &&& 0 <= k < line.len() - 1
    &&& !segment_below(ev, line[k] as int, line[k + 1] as int)
    &&& forall|i: int|
        0 <= i < k ==> segment_below(ev, #[trigger] line[i] as int, line[i + 1] as int)
}

/// The lowest place whose segment does not lie below the next, if the line
/// is out of order.
pub open spec fn first_break(ev: Seq<SweepEvent>, line: Seq<usize>) -> int {
    choose|k: int| is_first_break(ev, line, k)
}

pub proof fn lemma_first_break(ev: Seq<SweepEvent>, line: Seq<usize>, k: int)
    requires
        is_first_break(ev, line, k),
    ensures
        first_break(ev, line) == k,
        !line_ordered(ev, line),
{
    let c = first_break(ev, line);
    assert(is_first_break(ev, line, c));
    if c < k {
        assert(segment_below(ev, line[c] as int, line[c + 1] as int));
    }
    if k < c {
        assert(segment_below(ev, line[k] as int, line[k + 1] as int));
    }
}

/// The segment just below the first occurrence of `id`, if there is one.
pub open spec fn below_of(line: Seq<usize>, id: usize) -> Option<usize> {
    if line.contains(id) && first_index(line, id) > 0 {
        Some(line[first_index(line, id) - 1])
    } else {
        None
    }
}

/// The segment just above the first occurrence of `id`, if there is one.
pub open spec fn above_of(line: Seq<usize>, id: usize) -> Option<usize> {
    if line.contains(id) && first_index(line, id) + 1 < line.len() {
        Some(line[first_index(line, id) + 1])
    } else {
        None
    }
}

/// The line without the first occurrence of `id`.
pub open spec fn line_without(line: Seq<usize>, id: usize) -> Seq<usize> {
    if line.contains(id) {
        line.remove(first_index(line, id))
    } else {
        line
    }
}

/// The segments that cross the sweep line, each named by its left event,
/// from the lowest to the highest.
pub struct StatusLine {
    active: Vec<usize>,
}

impl View for StatusLine {
    type V = Seq<usize>;

    closed spec fn view(&self) -> Seq<usize> {
        self.active@
    }
}

impl StatusLine {
    pub fn new() -> (line: StatusLine)
        ensures
            line@ == Seq::<usize>::empty(),
    {
        StatusLine { active: Vec::new() }
    }

    pub fn len(&self) -> (n: usize)
        ensures
            n == self@.len(),
    {
        self.active.len()
    }

    /// A line holds no more segments than there are identifiers.
    pub proof fn lemma_len_bounded(&self)
        ensures
            self@.len() <= usize::MAX,
    {
        let n = self.active.len();
    }

    /// The segment at place `i`, counted from the lowest.
    pub fn get(&self, i: usize) -> (id: usize)
        requires
            i < self@.len(),
        ensures
            id == self@[i as int],
    {
        self.active[i]
    }

    /// The segments from the lowest to the highest.
    pub fn traverse(&self) -> (ids: Vec<usize>)
        ensures
            ids@ == self@,
    {
        let mut ids: Vec<usize> = Vec::new();
        let mut i: usize = 0;
        while i < self.active.len()
            invariant
                0 <= i <= self.active@.len(),
                ids@ == self.active@.take(i as int),
            decreases self.active@.len() - i,
        {
            ids.push(self.active[i]);
            i = i + 1;
            proof {
                assert(ids@ =~= self.active@.take(i as int));
            }
        }
        proof {
            assert(self.active@.take(i as int) =~= self.active@);
        }
        ids
    }

    /// Puts segment `id` above every segment that does not lie above it and
    /// returns its place.
    pub fn insert(&mut self, arena: &EventArena, id: usize) -> (place: usize)
        requires
            events_wf(arena@),
            ids_within(old(self)@, arena@.len()),
            id < arena@.len(),
        ensures
            place == insertion_index(arena@, old(self)@, id),
            is_insertion_index(arena@, old(self)@, id, place as int),
            final(self)@ == old(self)@.insert(place as int, id),
    {
        let n: usize = self.active.len();
        let mut i: usize = 0;
        while i < n
            invariant
                events_wf(arena@),
                ids_within(self.active@, arena@.len()),
                id < arena@.len(),
                n == self.active@.len(),
                0 <= i <= n,
                forall|k: int|
                    0 <= k < i ==> !segment_below(arena@, id as int, #[trigger] self.active@[k] as int),
            ensures
                i < n ==> segment_below(arena@, id as int, self.active@[i as int] as int),
            decreases n - i,
        {
            if compare_segments(arena, id, self.active[i]) {
                break ;
            }
            i = i + 1;
        }
        proof {
            lemma_insertion_index(arena@, self.active@, id, i as int);
        }
        self.active.insert(i, id);
        i
    }

    /// The first place at which segment `id` stands.
    pub fn position(&self, id: usize) -> (place: Option<usize>)
        ensures
            place is Some == self@.contains(id),
            place is Some ==> place.unwrap() == first_index(self@, id) && is_first_index(
                self@,
                id,
                place.unwrap() as int,
            ),
    {
        let n: usize = self.active.len();
        let mut i: usize = 0;
        while i < n
            invariant
                n == self.active@.len(),
                0 <= i <= n,
                forall|k: int| 0 <= k < i ==> #[trigger] self.active@[k] != id,
            decreases n - i,
        {
            if self.active[i] == id {
                proof {
                    lemma_first_index(self.active@, id, i as int);
                }
                return Some(i);
            }
            i = i + 1;
        }
        None
    }

    pub fn contains(&self, id: usize) -> (b: bool)
        ensures
            b == self@.contains(id),
    {
        self.position(id).is_some()
    }

    /// The segment just below segment `id`.
    pub fn prev(&self, id: usize) -> (below: Option<usize>)
        ensures
            below == below_of(self@, id),
            below is Some ==> self@.contains(below.unwrap()),
    {
        match self.position(id) {
            Some(i) => if i > 0 {
                Some(self.active[i - 1])
            } else {
                None
            },
            None => None,
        }
    }

    /// The segment just above segment `id`.
    pub fn next(&self, id: usize) -> (above: Option<usize>)
        ensures
            above == above_of(self@, id),
            above is Some ==> self@.contains(above.unwrap()),
    {
        match self.position(id) {
            Some(i) => if self.active.len() - i > 1 {
                Some(self.active[i + 1])
            } else {
                None
            },
            None => None,
        }
    }

    /// Takes segment `id` out of the line and says whether it was there.
    pub fn remove(&mut self, id: usize) -> (found: bool)
        ensures
            found == old(self)@.contains(id),
            final(self)@ == line_without(old(self)@, id),
    {
        match self.position(id) {
            Some(i) => {
                self.active.remove(i);
                true
            },
            None => false,
        }
    }

    /// The lowest place whose segment does not lie below the next one, or
    /// `None` if the line is in order.
    pub fn first_disorder(&self, arena: &EventArena) -> (place: Option<usize>)
        requires
            events_wf(arena@),
            ids_within(self@, arena@.len()),
        ensures
            place is None == line_ordered(arena@, self@),
            place is Some ==> place.unwrap() == first_break(arena@, self@) && is_first_break(
                arena@,
                self@,
                place.unwrap() as int,
            ),
    {
        let n: usize = self.active.len();
        let mut i: usize = 0;
        while n - i > 1
            invariant
                events_wf(arena@),
                ids_within(self.active@, arena@.len()),
                n == self.active@.len(),
                0 <= i <= n,
                forall|k: int|
                    0 <= k < i ==> segment_below(
                        arena@,
                        #[trigger] self.active@[k] as int,
                        self.active@[k + 1] as int,
                    ),
            decreases n - i,
        {
            if !compare_segments(arena, self.active[i], self.active[i + 1]) {
                proof {
                    lemma_first_break(arena@, self.active@, i as int);
                }
                return Some(i);
            }
            i = i + 1;
        }
        None
    }
}

} // verus!
