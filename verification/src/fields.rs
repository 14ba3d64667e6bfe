//! The labels of a segment: how it crosses its own polygon and where it lies
//! with respect to the other one.

use crate::event::{
    endpoints_kept, events_wf, first_index, ids_within, lemma_relabel_keeps_wf, EventArena,
    Polygon, SweepEvent,
};
use crate::status::StatusLine;
use vstd::prelude::*;

verus! {

/// The nearest segment of `polygon` among the `k` lowest segments of the line.
pub open spec fn nearest_of_polygon(
    ev: Seq<SweepEvent>,
    line: Seq<usize>,
    polygon: Polygon,
    k: int,
) -> Option<usize>
    decreases k,
{
    if k <= 0 {
        None
    } else if ev[line[k - 1] as int].polygon == polygon {
        Some(line[k - 1])
    } else {
        nearest_of_polygon(ev, line, polygon, k - 1)
    }
}

/// The number of segments below the first occurrence of `id` in the line.
pub open spec fn count_below(line: Seq<usize>, id: usize) -> int {
    if line.contains(id) {
        first_index(line, id)
    } else {
        0
    }
}

/// Event `id` with the labels that follow from the segment `below` it.
///
/// With nothing below, the segment lies outside both polygons. Below a
/// segment of its own polygon it crosses the other way and keeps that
/// segment's place with respect to the other polygon. Below a segment of the
/// other polygon it takes that segment's crossing as its place with respect
/// to the other polygon, and crosses the other way than the nearest segment
/// of its own polygon further down, or inwards if there is none.
pub open spec fn labelled(
    ev: Seq<SweepEvent>,
    line: Seq<usize>,
    id: int,
    below: Option<usize>,
) -> SweepEvent {
    let e = ev[id];
    match below {
        None => SweepEvent { in_out: false, other_in_out: true, inside_other: false, ..e },
        Some(p) => {
            let pe = ev[p as int];
            if pe.polygon == e.polygon {
                SweepEvent {
                    in_out: !pe.in_out,
                    other_in_out: pe.other_in_out,
                    inside_other: !pe.other_in_out,
                    ..e
                }
            } else {
                let in_out = match nearest_of_polygon(ev, line, e.polygon, count_below(line, p)) {
                    Some(q) => !ev[q as int].in_out,
                    None => false,
                };
                SweepEvent { in_out, other_in_out: pe.in_out, inside_other: !pe.in_out, ..e }
            }
        },
    }
}

/// The events after the labels of event `id` are written.
pub open spec fn relabelled(
    ev: Seq<SweepEvent>,
    line: Seq<usize>,
    id: usize,
    below: Option<usize>,
) -> Seq<SweepEvent> {
    ev.update(id as int, labelled(ev, line, id as int, below))
}

/// Writing the labels of an event keeps the arena well formed and every
/// event the endpoint that it was.
pub proof fn lemma_relabelled(
    ev: Seq<SweepEvent>,
    line: Seq<usize>,
    id: usize,
    below: Option<usize>,
)
    requires
        events_wf(ev),
        id < ev.len(),
    ensures
        events_wf(relabelled(ev, line, id, below)),
        endpoints_kept(ev, relabelled(ev, line, id, below)),
        relabelled(ev, line, id, below).len() == ev.len(),
{
    lemma_relabel_keeps_wf(ev, id as int, labelled(ev, line, id as int, below));
}

/// The nearest segment of `polygon` below segment `from` in the line.
pub fn nearest_below(arena: &EventArena, line: &StatusLine, polygon: Polygon, from: usize) -> (found:
    Option<usize>)
    requires
        ids_within(line@, arena@.len()),
    ensures
        found == nearest_of_polygon(arena@, line@, polygon, count_below(line@, from)),
        found is Some ==> found.unwrap() < arena@.len(),
{
    let mut k: usize = match line.position(from) {
        Some(i) => i,
        None => 0,
    };
    while k > 0
        invariant
            ids_within(line@, arena@.len()),
            0 <= k <= line@.len(),
            nearest_of_polygon(arena@, line@, polygon, count_below(line@, from))
                == nearest_of_polygon(arena@, line@, polygon, k as int),
        decreases k,
    {
        let id: usize = line.get(k - 1);
        if arena.get(id).polygon == polygon {
            return Some(id);
        }
        k = k - 1;
    }
    None
}

/// Writes the labels of segment `id`, given the segment `below` it.
pub fn compute_fields(
    arena: &mut EventArena,
    line: &StatusLine,
    id: usize,
    below: Option<usize>,
)
    requires
        events_wf(old(arena)@),
        ids_within(line@, old(arena)@.len()),
        id < old(arena)@.len(),
        below is Some ==> below.unwrap() < old(arena)@.len(),
    ensures
        final(arena)@ == relabelled(old(arena)@, line@, id, below),
        events_wf(final(arena)@),
        endpoints_kept(old(arena)@, final(arena)@),
        final(arena)@.len() == old(arena)@.len(),
{
    let e = arena.get(id);
    let mut in_out: bool = false;
    let mut other_in_out: bool = true;
    match below {
        None => {},
        Some(p) => {
            let pe = arena.get(p);
            if pe.polygon == e.polygon {
                in_out = !pe.in_out;
                other_in_out = pe.other_in_out;
            } else {
                other_in_out = pe.in_out;
                match nearest_below(arena, line, e.polygon, p) {
                    Some(q) => {
                        in_out = !arena.get(q).in_out;
                    },
                    None => {},
                }
            }
        },
    }
    let mut updated = e;
    updated.in_out = in_out;
    updated.other_in_out = other_in_out;
    updated.inside_other = !other_in_out;
    proof {
        assert(updated == labelled(arena@, line@, id as int, below));
        lemma_relabelled(arena@, line@, id, below);
    }
    arena.replace(id, updated);
}

/// The events after event `to` takes the labels of event `from`.
pub open spec fn labels_copied(ev: Seq<SweepEvent>, to: usize, from: usize) -> Seq<SweepEvent> {
    let source = ev[from as int];
    ev.update(
        to as int,
        SweepEvent {
            edge_type: source.edge_type,
            in_out: source.in_out,
            other_in_out: source.other_in_out,
            inside_other: source.inside_other,
            ..ev[to as int]
        },
    )
}

/// Gives event `to` the labels of event `from`: the right end of a segment
/// carries what was found out about the segment at its left end.
pub fn copy_labels(arena: &mut EventArena, to: usize, from: usize)
    requires
        events_wf(old(arena)@),
        to < old(arena)@.len(),
        from < old(arena)@.len(),
    ensures
        final(arena)@ == labels_copied(old(arena)@, to, from),
        events_wf(final(arena)@),
        endpoints_kept(old(arena)@, final(arena)@),
        final(arena)@.len() == old(arena)@.len(),
{
    let source = arena.get(from);
    let mut target = arena.get(to);
    target.edge_type = source.edge_type;
    target.in_out = source.in_out;
    target.other_in_out = source.other_in_out;
    target.inside_other = source.inside_other;
    proof {
        lemma_relabel_keeps_wf(arena@, to as int, target);
    }
    arena.replace(to, target);
}

} // verus!
