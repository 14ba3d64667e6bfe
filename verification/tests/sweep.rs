use sweep_subdivide::error::SweepError;
use sweep_subdivide::event::{EdgeType, EventArena, Operation, Polygon, SweepEvent};
use sweep_subdivide::fields::compute_fields;
use sweep_subdivide::geometry::{signed_area, BoundingBox, Point};
use sweep_subdivide::queue::EventQueue;
use sweep_subdivide::resolve::{divide_segment, possible_intersection, Resolution};
use sweep_subdivide::status::StatusLine;
use sweep_subdivide::sweep::{advance, past_bound, subdivide, Phase};

fn pt(x: i32, y: i32) -> Point {
    Point::new(x, y)
}

fn bbox(x0: i32, y0: i32, x1: i32, y1: i32) -> BoundingBox {
    BoundingBox::new(pt(x0, y0), pt(x1, y1))
}

fn edge(
    arena: &mut EventArena,
    queue: &mut EventQueue,
    a: (i32, i32),
    b: (i32, i32),
    polygon: Polygon,
) -> usize {
    let left = arena.add_segment(pt(a.0, a.1), pt(b.0, b.1), polygon).unwrap();
    queue.push(left);
    queue.push(left + 1);
    left
}

/// Queues the four edges of a square: bottom, right, top, left. With `base`
/// the identifier of the first event, the left events are `base`, `base + 2`,
/// `base + 4` and `base + 6`, each followed by its right event.
fn square(
    arena: &mut EventArena,
    queue: &mut EventQueue,
    x0: i32,
    y0: i32,
    x1: i32,
    y1: i32,
    polygon: Polygon,
) -> usize {
    let base = edge(arena, queue, (x0, y0), (x1, y0), polygon);
    edge(arena, queue, (x1, y0), (x1, y1), polygon);
    edge(arena, queue, (x1, y1), (x0, y1), polygon);
    edge(arena, queue, (x0, y1), (x0, y0), polygon);
    base
}

fn events(arena: &EventArena) -> Vec<SweepEvent> {
    (0..arena.len()).map(|id| arena.get(id)).collect()
}

fn points_in_order(arena: &EventArena, visited: &[usize]) -> bool {
    visited.windows(2).all(|w| !arena.get(w[1]).point.is_before(&arena.get(w[0]).point))
}

#[test]
fn half_overlapping_squares_are_split_where_their_boundaries_cross() {
    let mut arena = EventArena::new();
    let mut queue = EventQueue::new();
    square(&mut arena, &mut queue, 0, 0, 2, 2, Polygon::Subject);
    square(&mut arena, &mut queue, 1, 1, 3, 3, Polygon::Clipping);
    let result = subdivide(
        &mut arena,
        &mut queue,
        &bbox(0, 0, 2, 2),
        &bbox(1, 1, 3, 3),
        Operation::Intersection,
    );
    assert_eq!(
        result,
        Ok(vec![0, 6, 7, 4, 8, 14, 16, 18, 19, 17, 15, 12, 1, 2, 20, 22, 23, 21, 3, 5, 9])
    );
    // Two new points, each the end of two segments and the start of two.
    assert_eq!(arena.len(), 24);
    for id in 16..20 {
        assert_eq!(arena.get(id).point, pt(1, 2));
    }
    for id in 20..24 {
        assert_eq!(arena.get(id).point, pt(2, 1));
    }
    // The clipping square's left edge and the subject's top edge meet at (1, 2).
    assert_eq!(arena.get(14).other_event, 16);
    assert_eq!(arena.get(16).other_event, 14);
    assert_eq!(arena.get(17).other_event, 15);
    assert_eq!(arena.get(15).other_event, 17);
    assert_eq!(arena.get(4).other_event, 18);
    assert_eq!(arena.get(19).other_event, 5);
    // The subject's right edge and the clipping square's bottom edge meet at (2, 1).
    assert_eq!(arena.get(2).other_event, 20);
    assert_eq!(arena.get(21).other_event, 3);
    assert_eq!(arena.get(8).other_event, 22);
    assert_eq!(arena.get(23).other_event, 9);
    // The four sides of the shared square, and no other segment, lie inside
    // the other polygon.
    let inside: Vec<usize> =
        (0..arena.len()).filter(|&id| arena.get(id).is_left && arena.get(id).inside_other).collect();
    assert_eq!(inside, vec![8, 14, 19, 21]);
    // Their right ends say the same; the right end at (3, 1) ended the
    // sweep and was not dealt with.
    let inside_right: Vec<usize> =
        (0..arena.len()).filter(|&id| !arena.get(id).is_left && arena.get(id).inside_other).collect();
    assert_eq!(inside_right, vec![3, 5, 16, 22]);
    assert_eq!(arena.get(16).in_out, arena.get(14).in_out);
    assert!(!arena.get(9).other_in_out && !arena.get(9).in_out && !arena.get(9).inside_other);
    assert_eq!((arena.get(8).point, arena.get(22).point), (pt(1, 1), pt(2, 1)));
    assert_eq!((arena.get(14).point, arena.get(16).point), (pt(1, 1), pt(1, 2)));
    assert_eq!((arena.get(19).point, arena.get(5).point), (pt(1, 2), pt(2, 2)));
    assert_eq!((arena.get(21).point, arena.get(3).point), (pt(2, 1), pt(2, 2)));
    for id in [8, 14, 19, 21] {
        assert!(!arena.get(id).other_in_out);
        assert_eq!(arena.get(id).edge_type, EdgeType::Normal);
    }
    assert!(!arena.get(8).in_out);
    assert!(arena.get(14).in_out);
    assert!(arena.get(19).in_out);
    assert!(!arena.get(21).in_out);
    assert!(points_in_order(&arena, &result.unwrap()));
    // What the sweep did not reach is still queued.
    assert_eq!(queue.len(), 3);
}

#[test]
fn disjoint_squares_end_an_intersection_at_the_first_event_past_the_bound() {
    let mut arena = EventArena::new();
    let mut queue = EventQueue::new();
    square(&mut arena, &mut queue, 0, 0, 2, 2, Polygon::Subject);
    square(&mut arena, &mut queue, 5, 0, 7, 2, Polygon::Clipping);
    let result = subdivide(
        &mut arena,
        &mut queue,
        &bbox(0, 0, 2, 2),
        &bbox(5, 0, 7, 2),
        Operation::Intersection,
    );
    assert_eq!(result, Ok(vec![0, 6, 7, 4, 1, 2, 3, 5, 8]));
    assert_eq!(arena.len(), 16);
    assert_eq!(queue.len(), 7);
    // The event that ended the sweep was recorded and not dealt with.
    assert!(!arena.get(8).other_in_out);
}

#[test]
fn disjoint_squares_are_not_split_by_any_operation() {
    for operation in [Operation::Union, Operation::Xor] {
        let mut arena = EventArena::new();
        let mut queue = EventQueue::new();
        square(&mut arena, &mut queue, 0, 0, 2, 2, Polygon::Subject);
        square(&mut arena, &mut queue, 5, 0, 7, 2, Polygon::Clipping);
        let result =
            subdivide(&mut arena, &mut queue, &bbox(0, 0, 2, 2), &bbox(5, 0, 7, 2), operation);
        assert_eq!(result, Ok(vec![0, 6, 7, 4, 1, 2, 3, 5, 8, 14, 15, 12, 9, 10, 11, 13]));
        assert_eq!(arena.len(), 16);
        assert!(queue.is_empty());
        for id in 0..16 {
            assert!(!arena.get(id).inside_other);
            assert_eq!(arena.get(id).edge_type, EdgeType::Normal);
        }
    }
}

#[test]
fn a_difference_ends_past_the_subject() {
    let mut arena = EventArena::new();
    let mut queue = EventQueue::new();
    square(&mut arena, &mut queue, 5, 0, 7, 2, Polygon::Subject);
    square(&mut arena, &mut queue, 0, 0, 2, 2, Polygon::Clipping);
    square(&mut arena, &mut queue, 8, 0, 9, 2, Polygon::Clipping);
    let result = subdivide(
        &mut arena,
        &mut queue,
        &bbox(5, 0, 7, 2),
        &bbox(0, 0, 9, 2),
        Operation::Difference,
    );
    // All of the first clipping square and of the subject, then one event
    // of the second clipping square.
    let visited = result.unwrap();
    assert_eq!(visited.len(), 17);
    assert_eq!(visited[16], 16);
    assert_eq!(queue.len(), 7);
}

#[test]
fn the_bound_of_a_sweep_depends_on_the_operation() {
    assert!(!past_bound(Operation::Intersection, 2, 2, 7));
    assert!(past_bound(Operation::Intersection, 3, 2, 7));
    assert!(past_bound(Operation::Intersection, 3, 7, 2));
    assert!(!past_bound(Operation::Intersection, 2, 7, 2));
    assert!(past_bound(Operation::Difference, 3, 2, 7));
    assert!(!past_bound(Operation::Difference, 3, 7, 2));
    assert!(!past_bound(Operation::Union, 100, 2, 2));
    assert!(!past_bound(Operation::Xor, 100, 2, 2));
}

#[test]
fn identical_squares_are_marked_as_overlapping() {
    let mut arena = EventArena::new();
    let mut queue = EventQueue::new();
    square(&mut arena, &mut queue, 0, 0, 2, 2, Polygon::Subject);
    square(&mut arena, &mut queue, 0, 0, 2, 2, Polygon::Clipping);
    let result =
        subdivide(&mut arena, &mut queue, &bbox(0, 0, 2, 2), &bbox(0, 0, 2, 2), Operation::Union);
    assert_eq!(result, Ok(vec![0, 8, 6, 14, 7, 15, 4, 12, 1, 9, 2, 10, 3, 11, 5, 13]));
    assert_eq!(arena.len(), 16);
    assert!(queue.is_empty());
    // Both squares cross their polygons in the same direction on every
    // edge: the subject's edge records it, the clipping square's adds nothing.
    for id in [0, 2, 4, 6] {
        assert_eq!(arena.get(id).edge_type, EdgeType::SameTransition);
        assert_eq!(arena.get(id + 8).edge_type, EdgeType::NonContributing);
        assert_eq!(arena.get(id).in_out, arena.get(id + 8).in_out);
    }
    // Every right event carries the labels of its segment.
    for id in [0, 2, 4, 6, 8, 10, 12, 14] {
        let (left, right) = (arena.get(id), arena.get(id + 1));
        assert_eq!(
            (right.edge_type, right.in_out, right.other_in_out, right.inside_other),
            (left.edge_type, left.in_out, left.other_in_out, left.inside_other)
        );
    }
    assert!(!arena.get(0).in_out && arena.get(0).other_in_out);
    assert!(!arena.get(8).in_out && !arena.get(8).other_in_out && arena.get(8).inside_other);
    assert!(arena.get(4).in_out && !arena.get(4).other_in_out);
    assert!(arena.get(12).in_out && arena.get(12).other_in_out && !arena.get(12).inside_other);
}

#[test]
fn subdividing_the_same_input_twice_gives_the_same_output() {
    let run = || {
        let mut arena = EventArena::new();
        let mut queue = EventQueue::new();
        square(&mut arena, &mut queue, 0, 0, 7, 7, Polygon::Subject);
        edge(&mut arena, &mut queue, (1, 1), (9, 4), Polygon::Clipping);
        edge(&mut arena, &mut queue, (9, 4), (3, 12), Polygon::Clipping);
        edge(&mut arena, &mut queue, (3, 12), (1, 1), Polygon::Clipping);
        let result =
            subdivide(&mut arena, &mut queue, &bbox(0, 0, 7, 7), &bbox(1, 1, 9, 12), Operation::Xor);
        (result, events(&arena))
    };
    let first = run();
    let second = run();
    assert!(first.0.is_ok());
    assert_eq!(first, second);
}

#[test]
fn a_crossing_off_the_grid_splits_both_segments_at_the_rounded_point() {
    let mut arena = EventArena::new();
    let mut queue = EventQueue::new();
    edge(&mut arena, &mut queue, (0, 0), (3, 3), Polygon::Subject);
    edge(&mut arena, &mut queue, (0, 3), (3, 0), Polygon::Clipping);
    let result =
        subdivide(&mut arena, &mut queue, &bbox(0, 0, 3, 3), &bbox(0, 0, 3, 3), Operation::Union);
    assert_eq!(result, Ok(vec![0, 2, 4, 6, 7, 5, 3, 1]));
    assert_eq!(arena.len(), 8);
    for id in 4..8 {
        assert_eq!(arena.get(id).point, pt(2, 2));
    }
    // Each segment runs to the new point, and a new one from there to the old end.
    assert_eq!((arena.get(0).other_event, arena.get(4).other_event), (4, 0));
    assert_eq!((arena.get(5).other_event, arena.get(1).other_event), (1, 5));
    assert_eq!((arena.get(2).other_event, arena.get(6).other_event), (6, 2));
    assert_eq!((arena.get(7).other_event, arena.get(3).other_event), (3, 7));
    assert!(arena.get(5).inside_other);
    assert!(!arena.get(7).inside_other);
    assert!(points_in_order(&arena, &result.unwrap()));
}

#[test]
fn a_segment_that_starts_on_another_splits_it_at_the_sweep_point() {
    let mut arena = EventArena::new();
    let mut queue = EventQueue::new();
    let base = edge(&mut arena, &mut queue, (0, 0), (10, 0), Polygon::Subject);
    let spur = edge(&mut arena, &mut queue, (5, 0), (8, 3), Polygon::Clipping);
    let result =
        subdivide(&mut arena, &mut queue, &bbox(0, 0, 10, 0), &bbox(5, 0, 8, 3), Operation::Union);
    // The new right end at (5, 0) is visited after the spur's left end,
    // which stands at the same point and caused the split.
    assert_eq!(result, Ok(vec![base, spur, 4, 5, spur + 1, base + 1]));
    assert_eq!(arena.get(4).point, pt(5, 0));
    assert!(!arena.get(4).is_left);
    assert_eq!(arena.get(base).other_event, 4);
    assert_eq!(arena.get(5).other_event, base + 1);
    assert_eq!(arena.get(spur).other_event, spur + 1);
    assert!(points_in_order(&arena, &result.unwrap()));
}

#[test]
fn a_right_event_whose_segment_is_not_active_fails_the_sweep() {
    let mut arena = EventArena::new();
    let mut queue = EventQueue::new();
    let id = arena.add_segment(pt(0, 0), pt(4, 0), Polygon::Subject).unwrap();
    queue.push(id + 1);
    let result =
        subdivide(&mut arena, &mut queue, &bbox(0, 0, 4, 0), &bbox(0, 0, 4, 0), Operation::Union);
    assert_eq!(result, Err(SweepError::TwinNotActive { event: id + 1 }));
}

#[test]
fn a_crossing_rounded_behind_the_sweep_fails_the_sweep() {
    let mut arena = EventArena::new();
    let mut queue = EventQueue::new();
    let flat = edge(&mut arena, &mut queue, (-5, -1), (5, -1), Polygon::Subject);
    let steep = edge(&mut arena, &mut queue, (0, 0), (1, -10), Polygon::Clipping);
    // The segments cross at (0.1, -1), which is rounded to (0, -1): a point
    // that comes before (0, 0), where the sweep stands when it finds the crossing.
    let result = subdivide(
        &mut arena,
        &mut queue,
        &bbox(-5, -1, 5, -1),
        &bbox(0, -10, 1, 0),
        Operation::Union,
    );
    assert_eq!(result, Err(SweepError::SplitBehindSweep { lower: flat, upper: steep }));
    assert_eq!(arena.len(), 4);
}

#[test]
fn a_line_found_out_of_order_fails_the_step() {
    // The line is filled under one geometry; the step is taken under
    // another, in which the two segments have changed places.
    let mut first = EventArena::new();
    first.add_segment(pt(0, 0), pt(9, 0), Polygon::Subject);
    first.add_segment(pt(0, 2), pt(9, 2), Polygon::Subject);
    let mut line = StatusLine::new();
    line.insert(&first, 0);
    line.insert(&first, 2);
    let mut arena = EventArena::new();
    let mut queue = EventQueue::new();
    arena.add_segment(pt(0, 2), pt(9, 2), Polygon::Subject);
    arena.add_segment(pt(0, 0), pt(9, 0), Polygon::Subject);
    let far = edge(&mut arena, &mut queue, (20, 20), (30, 20), Polygon::Clipping);
    let mut output = Vec::new();
    let phase = advance(&mut arena, &mut queue, &mut line, &mut output, Operation::Union, 9, 30);
    assert_eq!(phase, Phase::Failed(SweepError::OrderViolated { lower: 0, upper: 2 }));
    assert_eq!(output, vec![far]);
}

#[test]
fn a_step_on_an_empty_queue_finishes_the_sweep() {
    let mut arena = EventArena::new();
    let mut queue = EventQueue::new();
    let mut line = StatusLine::new();
    let mut output = Vec::new();
    let phase = advance(&mut arena, &mut queue, &mut line, &mut output, Operation::Union, 0, 0);
    assert_eq!(phase, Phase::Finished);
    assert!(output.is_empty());
    let result =
        subdivide(&mut arena, &mut queue, &bbox(0, 0, 0, 0), &bbox(0, 0, 0, 0), Operation::Xor);
    assert_eq!(result, Ok(vec![]));
}

#[test]
fn a_step_visits_one_event_and_keeps_the_line_in_order() {
    let mut arena = EventArena::new();
    let mut queue = EventQueue::new();
    let mut line = StatusLine::new();
    let mut output = Vec::new();
    let low = edge(&mut arena, &mut queue, (0, 0), (4, 0), Polygon::Subject);
    let high = edge(&mut arena, &mut queue, (0, 1), (4, 5), Polygon::Clipping);
    for expected in [vec![low], vec![low, high], vec![high], vec![]] {
        let phase = advance(&mut arena, &mut queue, &mut line, &mut output, Operation::Union, 4, 4);
        assert_eq!(phase, Phase::Running);
        assert_eq!(line.traverse(), expected);
        assert_eq!(line.first_disorder(&arena), None);
    }
    assert_eq!(output, vec![low, high, low + 1, high + 1]);
    let phase = advance(&mut arena, &mut queue, &mut line, &mut output, Operation::Union, 4, 4);
    assert_eq!(phase, Phase::Finished);
}

#[test]
fn dividing_a_segment_links_two_pieces_and_queues_the_new_events() {
    let mut arena = EventArena::new();
    let mut queue = EventQueue::new();
    let id = arena.add_segment(pt(0, 0), pt(6, 3), Polygon::Clipping).unwrap();
    divide_segment(&mut arena, &mut queue, id, pt(4, 2));
    assert_eq!(arena.len(), 4);
    assert_eq!(arena.get(id).other_event, 2);
    assert_eq!(arena.get(id + 1).other_event, 3);
    let new_right = arena.get(2);
    let new_left = arena.get(3);
    assert_eq!((new_right.point, new_right.is_left, new_right.other_event), (pt(4, 2), false, id));
    assert_eq!((new_left.point, new_left.is_left, new_left.other_event), (pt(4, 2), true, id + 1));
    assert_eq!(new_right.polygon, Polygon::Clipping);
    assert_eq!(new_left.polygon, Polygon::Clipping);
    assert_eq!(new_left.edge_type, EdgeType::Normal);
    assert_eq!(queue.len(), 2);
    assert_eq!(queue.pop(&arena), Some(2));
    assert_eq!(queue.pop(&arena), Some(3));
}

#[test]
fn segments_apart_are_left_alone() {
    let mut arena = EventArena::new();
    let mut queue = EventQueue::new();
    let a = arena.add_segment(pt(0, 0), pt(4, 0), Polygon::Subject).unwrap();
    let b = arena.add_segment(pt(0, 1), pt(4, 3), Polygon::Clipping).unwrap();
    let before = events(&arena);
    assert_eq!(possible_intersection(&mut arena, &mut queue, a, b, pt(0, 1)), Ok(Resolution::NoAction));
    assert_eq!(possible_intersection(&mut arena, &mut queue, a, a, pt(0, 1)), Ok(Resolution::NoAction));
    assert_eq!(events(&arena), before);
    assert!(queue.is_empty());
}

#[test]
fn segments_that_cross_are_both_split() {
    let mut arena = EventArena::new();
    let mut queue = EventQueue::new();
    let a = arena.add_segment(pt(0, 0), pt(4, 4), Polygon::Subject).unwrap();
    let b = arena.add_segment(pt(0, 4), pt(4, 0), Polygon::Clipping).unwrap();
    assert_eq!(possible_intersection(&mut arena, &mut queue, a, b, pt(0, 4)), Ok(Resolution::Relabel));
    assert_eq!(arena.len(), 8);
    for id in 4..8 {
        assert_eq!(arena.get(id).point, pt(2, 2));
    }
    assert_eq!(arena.get(a).other_event, 4);
    assert_eq!(arena.get(b).other_event, 6);
    assert_eq!(queue.len(), 4);
}

#[test]
fn a_split_behind_the_sweep_is_refused_and_changes_nothing() {
    let mut arena = EventArena::new();
    let mut queue = EventQueue::new();
    let a = arena.add_segment(pt(0, 0), pt(4, 4), Polygon::Subject).unwrap();
    let b = arena.add_segment(pt(0, 4), pt(4, 0), Polygon::Clipping).unwrap();
    let before = events(&arena);
    assert_eq!(
        possible_intersection(&mut arena, &mut queue, a, b, pt(3, 0)),
        Err(SweepError::SplitBehindSweep { lower: a, upper: b })
    );
    assert_eq!(events(&arena), before);
    assert!(queue.is_empty());
    // At the crossing itself the split looks forward.
    assert_eq!(possible_intersection(&mut arena, &mut queue, a, b, pt(2, 2)), Ok(Resolution::Relabel));
}

#[test]
fn overlapping_segments_of_one_polygon_are_left_alone() {
    let mut arena = EventArena::new();
    let mut queue = EventQueue::new();
    let a = arena.add_segment(pt(0, 0), pt(6, 0), Polygon::Subject).unwrap();
    let b = arena.add_segment(pt(2, 0), pt(8, 0), Polygon::Subject).unwrap();
    assert_eq!(possible_intersection(&mut arena, &mut queue, a, b, pt(2, 0)), Ok(Resolution::NoAction));
    assert_eq!(arena.len(), 4);
}

#[test]
fn overlapping_segments_that_start_together_are_marked() {
    let mut arena = EventArena::new();
    let mut queue = EventQueue::new();
    let a = arena.add_segment(pt(0, 0), pt(6, 0), Polygon::Subject).unwrap();
    let b = arena.add_segment(pt(0, 0), pt(4, 0), Polygon::Clipping).unwrap();
    assert_eq!(possible_intersection(&mut arena, &mut queue, a, b, pt(0, 0)), Ok(Resolution::Relabel));
    assert_eq!(arena.get(a).edge_type, EdgeType::SameTransition);
    assert_eq!(arena.get(b).edge_type, EdgeType::NonContributing);
    // The longer one is split where the shorter one ends.
    assert_eq!(arena.len(), 6);
    assert_eq!(arena.get(4).point, pt(4, 0));
    assert_eq!(arena.get(a).other_event, 4);
    assert_eq!(arena.get(5).other_event, a + 1);
    assert_eq!(arena.get(5).edge_type, EdgeType::Normal);
    assert_eq!(arena.get(b).other_event, b + 1);
}

#[test]
fn overlapping_segments_that_cross_their_polygons_in_opposite_directions_are_marked_so() {
    let mut arena = EventArena::new();
    let mut queue = EventQueue::new();
    let below = arena.add_segment(pt(0, -2), pt(4, -2), Polygon::Subject).unwrap();
    let a = arena.add_segment(pt(0, 0), pt(4, 0), Polygon::Subject).unwrap();
    let b = arena.add_segment(pt(0, 0), pt(4, 0), Polygon::Clipping).unwrap();
    let mut line = StatusLine::new();
    for id in [below, a, b] {
        line.insert(&arena, id);
    }
    compute_fields(&mut arena, &line, below, None);
    compute_fields(&mut arena, &line, a, Some(below));
    compute_fields(&mut arena, &line, b, Some(a));
    assert!(arena.get(a).in_out);
    assert!(!arena.get(b).in_out);
    assert_eq!(possible_intersection(&mut arena, &mut queue, a, b, pt(0, 0)), Ok(Resolution::Relabel));
    assert_eq!(arena.get(a).edge_type, EdgeType::DifferentTransition);
    assert_eq!(arena.get(b).edge_type, EdgeType::NonContributing);
    assert_eq!(arena.len(), 6);
}

#[test]
fn staggered_overlapping_segments_are_split_at_both_ends_of_the_shared_part() {
    let mut arena = EventArena::new();
    let mut queue = EventQueue::new();
    let a = arena.add_segment(pt(0, 0), pt(6, 0), Polygon::Subject).unwrap();
    let b = arena.add_segment(pt(2, 0), pt(8, 0), Polygon::Clipping).unwrap();
    assert_eq!(possible_intersection(&mut arena, &mut queue, a, b, pt(2, 0)), Ok(Resolution::Relabel));
    // a is split at (2, 0), where b starts; b at (6, 0), where a ends.
    assert_eq!(arena.len(), 8);
    assert_eq!(arena.get(4).point, pt(2, 0));
    assert_eq!(arena.get(a).other_event, 4);
    assert_eq!(arena.get(5).other_event, a + 1);
    assert_eq!(arena.get(6).point, pt(6, 0));
    assert_eq!(arena.get(b).other_event, 6);
    assert_eq!(arena.get(7).other_event, b + 1);
    assert_eq!(arena.get(a).edge_type, EdgeType::Normal);
    assert_eq!(arena.get(b).edge_type, EdgeType::Normal);
}

#[test]
fn a_segment_that_holds_another_is_split_into_three() {
    let mut arena = EventArena::new();
    let mut queue = EventQueue::new();
    let outer = arena.add_segment(pt(0, 0), pt(9, 0), Polygon::Subject).unwrap();
    let inner = arena.add_segment(pt(3, 0), pt(5, 0), Polygon::Clipping).unwrap();
    assert_eq!(
        possible_intersection(&mut arena, &mut queue, outer, inner, pt(3, 0)),
        Ok(Resolution::Relabel)
    );
    assert_eq!(arena.len(), 8);
    // (0,0)-(3,0), (3,0)-(5,0) and (5,0)-(9,0).
    assert_eq!((arena.get(outer).point, arena.get(arena.get(outer).other_event).point), (pt(0, 0), pt(3, 0)));
    assert_eq!((arena.get(5).point, arena.get(arena.get(5).other_event).point), (pt(3, 0), pt(5, 0)));
    assert_eq!((arena.get(7).point, arena.get(arena.get(7).other_event).point), (pt(5, 0), pt(9, 0)));
    assert_eq!(arena.get(7).other_event, outer + 1);
    assert_eq!(arena.get(inner).other_event, inner + 1);
}

#[test]
fn overlapping_segments_that_end_together_are_split_once() {
    let mut arena = EventArena::new();
    let mut queue = EventQueue::new();
    let a = arena.add_segment(pt(0, 0), pt(6, 0), Polygon::Subject).unwrap();
    let b = arena.add_segment(pt(2, 0), pt(6, 0), Polygon::Clipping).unwrap();
    assert_eq!(possible_intersection(&mut arena, &mut queue, a, b, pt(2, 0)), Ok(Resolution::Relabel));
    assert_eq!(arena.len(), 6);
    assert_eq!(arena.get(4).point, pt(2, 0));
    assert_eq!(arena.get(5).other_event, a + 1);
    // What is left of a ends where b starts.
    assert_eq!(
        possible_intersection(&mut arena, &mut queue, a, b, pt(3, 0)),
        Ok(Resolution::Handled)
    );
    assert_eq!(arena.len(), 6);
}

#[test]
fn squares_that_share_parts_of_their_edges_are_split_and_marked() {
    let mut arena = EventArena::new();
    let mut queue = EventQueue::new();
    square(&mut arena, &mut queue, 0, 0, 2, 2, Polygon::Subject);
    square(&mut arena, &mut queue, 1, 0, 3, 2, Polygon::Clipping);
    let result =
        subdivide(&mut arena, &mut queue, &bbox(0, 0, 2, 2), &bbox(1, 0, 3, 2), Operation::Union);
    let visited = result.unwrap();
    assert!(points_in_order(&arena, &visited));
    assert!(queue.is_empty());
    assert_eq!(visited.len(), arena.len());
    // The shared parts run from (1, 0) to (2, 0) and from (1, 2) to (2, 2):
    // on each, one edge records the overlap and the other adds nothing.
    let marked = |kind: EdgeType| -> Vec<(Point, Point)> {
        (0..arena.len())
            .filter(|&id| arena.get(id).is_left && arena.get(id).edge_type == kind)
            .map(|id| (arena.get(id).point, arena.get(arena.get(id).other_event).point))
            .collect()
    };
    assert_eq!(marked(EdgeType::SameTransition), vec![(pt(1, 0), pt(2, 0)), (pt(1, 2), pt(2, 2))]);
    assert_eq!(marked(EdgeType::NonContributing), vec![(pt(1, 0), pt(2, 0)), (pt(1, 2), pt(2, 2))]);
    assert_eq!(marked(EdgeType::DifferentTransition), vec![]);
}

#[test]
fn a_triangle_across_a_square_is_split_at_every_crossing() {
    let mut arena = EventArena::new();
    let mut queue = EventQueue::new();
    square(&mut arena, &mut queue, 0, 0, 8, 8, Polygon::Subject);
    edge(&mut arena, &mut queue, (-4, 4), (12, 4), Polygon::Clipping);
    edge(&mut arena, &mut queue, (12, 4), (4, 12), Polygon::Clipping);
    edge(&mut arena, &mut queue, (4, 12), (-4, 4), Polygon::Clipping);
    assert!(arena.is_well_formed());
    assert!(queue.all_within(arena.len()));
    assert!(!queue.all_within(arena.len() - 1));
    let result =
        subdivide(&mut arena, &mut queue, &bbox(0, 0, 8, 8), &bbox(-4, 4, 12, 12), Operation::Xor);
    let visited = result.unwrap();
    assert!(arena.is_well_formed());
    assert!(queue.is_empty());
    assert_eq!(visited.len(), arena.len());
    assert!(points_in_order(&arena, &visited));
    // The boundaries cross at (0, 4), (8, 4), (0, 8) and (8, 8); the last
    // is a corner of the square, where only the triangle is split.
    let mut new_points: Vec<(i32, i32)> =
        (14..arena.len()).map(|id| (arena.get(id).point.x, arena.get(id).point.y)).collect();
    new_points.sort();
    new_points.dedup();
    assert_eq!(new_points, vec![(0, 4), (0, 8), (8, 4), (8, 8)]);
    // Every event is visited once.
    let mut seen = visited.clone();
    seen.sort();
    assert_eq!(seen, (0..arena.len()).collect::<Vec<usize>>());
    // Inside the square: the base of the triangle between (0, 4) and (8, 4); inside the
    // triangle: the parts of the square's edges above the base.
    for id in 0..arena.len() {
        let e = arena.get(id);
        if !e.is_left {
            continue;
        }
        let other = arena.get(e.other_event).point;
        let twice_mid = (e.point.x + other.x, e.point.y + other.y);
        let expected = match e.polygon {
            Polygon::Clipping => {
                0 < twice_mid.0 && twice_mid.0 < 16 && 0 < twice_mid.1 && twice_mid.1 < 16
            }
            Polygon::Subject => {
                // Above the base y = 4 and below both slanted sides.
                twice_mid.1 > 8
                    && twice_mid.1 - twice_mid.0 < 16
                    && twice_mid.1 + twice_mid.0 < 32
            }
        };
        assert_eq!(e.inside_other, expected, "segment {} from {:?} to {:?}", id, e.point, other);
    }
}

#[test]
fn an_arena_with_a_broken_link_is_not_well_formed() {
    let mut arena = EventArena::new();
    assert!(arena.is_well_formed());
    arena.add_segment(pt(0, 0), pt(1, 1), Polygon::Subject);
    arena.add_segment(pt(0, 0), pt(2, 1), Polygon::Clipping);
    assert!(arena.is_well_formed());
    let mut queue = EventQueue::new();
    assert!(queue.all_within(0));
    queue.push(3);
    assert!(queue.all_within(4));
    assert!(!queue.all_within(3));
}

#[test]
fn the_pieces_of_a_divided_segment_cover_it() {
    let mut arena = EventArena::new();
    let mut queue = EventQueue::new();
    let id = arena.add_segment(pt(0, 0), pt(6, 3), Polygon::Subject).unwrap();
    divide_segment(&mut arena, &mut queue, id, pt(4, 2));
    let on = |z: Point, a: Point, b: Point| {
        signed_area(a, b, z) == 0 && !z.is_before(&a) && !b.is_before(&z)
    };
    let first = (arena.get(id).point, arena.get(arena.get(id).other_event).point);
    let second = (arena.get(3).point, arena.get(arena.get(3).other_event).point);
    assert_eq!(first, (pt(0, 0), pt(4, 2)));
    assert_eq!(second, (pt(4, 2), pt(6, 3)));
    for x in -1..8 {
        for y in -1..5 {
            let z = pt(x, y);
            assert_eq!(
                on(z, pt(0, 0), pt(6, 3)),
                on(z, first.0, first.1) || on(z, second.0, second.1)
            );
        }
    }
}

#[test]
fn segments_that_meet_at_their_ends_need_no_split() {
    let mut arena = EventArena::new();
    let mut queue = EventQueue::new();
    let a = arena.add_segment(pt(0, 0), pt(4, 0), Polygon::Subject).unwrap();
    let b = arena.add_segment(pt(0, 0), pt(4, 3), Polygon::Clipping).unwrap();
    let c = arena.add_segment(pt(4, 0), pt(4, 3), Polygon::Clipping).unwrap();
    let before = events(&arena);
    assert_eq!(possible_intersection(&mut arena, &mut queue, a, b, pt(0, 0)), Ok(Resolution::Handled));
    assert_eq!(possible_intersection(&mut arena, &mut queue, a, c, pt(4, 0)), Ok(Resolution::Handled));
    assert_eq!(possible_intersection(&mut arena, &mut queue, c, b, pt(4, 0)), Ok(Resolution::Handled));
    assert_eq!(events(&arena), before);
    assert!(queue.is_empty());
}
