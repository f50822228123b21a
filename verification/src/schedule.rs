//! The schedule of a cascade, told step by step: which boxes are scheduled
//! to move, in what order, and where every box stands afterwards.
//!
//! A box is scheduled by its id. On a canvas whose ids are distinct that is
//! the box itself, and the schedule holds exactly the boxes that the cascade
//! reaches. On a canvas on which boxes share an id, the box that is scheduled
//! first stands in for all the boxes of its id: they all end as copies of it,
//! at its new place.

use vstd::prelude::*;
use vstd::set_lib::{lemma_int_range, lemma_len_subset, set_int_range};
use crate::cascade::{
    after_move_box, after_move_selected, cascade_allowed, cascade_reaches, cascade_result,
    closed_under_pushes, lemma_pushed_is_reached, lemma_reached_is_a_box,
    lemma_reached_is_least, lemma_seed_is_reached, lemma_zero_move, moved_by_cascade,
    position_allowed, pushes, selected_boxes,
};
use crate::model::{
    first_box_named, ids_distinct, is_first_box_named, lemma_first_box_named,
    lemma_first_box_named_is_first, same_ids, BoxView, CanvasView,
};

verus! {

/// Whether one of the boxes of `order` is named `id`.
pub open spec fn id_scheduled(boxes: Seq<BoxView>, order: Seq<int>, id: Seq<char>) -> bool {
    exists|k: int| 0 <= k < order.len() && boxes[#[trigger] order[k]].id == id
}

/// The box of `order` that is named `id`, if there is one. Where `order`
/// names no id twice there is at most one.
pub open spec fn stand_in_for(boxes: Seq<BoxView>, order: Seq<int>, id: Seq<char>) -> Option<int> {
    if id_scheduled(boxes, order, id) {
        Some(order[choose|k: int| 0 <= k < order.len() && boxes[#[trigger] order[k]].id == id])
    } else {
        None
    }
}

/// The scheduled boxes once box `mover`, moved by `(dx, dy)`, has been held
/// against the first `upto` boxes, in their order: each of them that it
/// overlaps, and whose id is not scheduled when its turn comes, is scheduled
/// behind the others.
pub open spec fn order_after_sweep(
    boxes: Seq<BoxView>,
    order: Seq<int>,
    mover: int,
    dx: int,
    dy: int,
    upto: int,
) -> Seq<int>
    decreases upto,
{
    if upto <= 0 {
        order
    } else {
        let before = order_after_sweep(boxes, order, mover, dx, dy, upto - 1);
        if !id_scheduled(boxes, before, boxes[upto - 1].id) && pushes(
            boxes,
            dx,
            dy,
            mover,
            upto - 1,
        ) {
            before.push(upto - 1)
        } else {
            before
        }
    }
}

/// The scheduled boxes once each of them from the place `head` on, in the
/// order in which they were scheduled, has been held against all the boxes.
pub open spec fn order_after_cascade(
    boxes: Seq<BoxView>,
    order: Seq<int>,
    dx: int,
    dy: int,
    head: int,
) -> Seq<int>
    decreases boxes.len() - head,
{
    if 0 <= head < order.len() && head < boxes.len() {
        order_after_cascade(
            boxes,
            order_after_sweep(boxes, order, order[head], dx, dy, boxes.len() as int),
            dx,
            dy,
            head + 1,
        )
    } else {
        order
    }
}

/// Where the boxes stand once the boxes of `order` have moved by `(dx, dy)`:
/// a box whose id is scheduled stands where the scheduled box of that id has
/// moved to, and is a copy of it; every other box stands where it stood.
pub open spec fn places_by_id(boxes: Seq<BoxView>, order: Seq<int>, dx: int, dy: int) -> Seq<
    BoxView,
> {
    Seq::new(
        boxes.len(),
        |j: int|
            match stand_in_for(boxes, order, boxes[j].id) {
                Some(r) => boxes[r].shifted(dx, dy),
                None => boxes[j],
            },
    )
}

/// Whether every box whose id is scheduled may stand where the move puts it.
pub open spec fn places_allowed(
    boxes: Seq<BoxView>,
    order: Seq<int>,
    dx: int,
    dy: int,
    reject_negative: bool,
) -> bool {
    forall|j: int|
        0 <= j < boxes.len() && id_scheduled(boxes, order, (#[trigger] boxes[j]).id)
            ==> position_allowed(places_by_id(boxes, order, dx, dy)[j], reject_negative)
}

/// The boxes after the transactional move that starts with the boxes of
/// `seeds` scheduled, told for every canvas, also one on which boxes share
/// an id.
pub open spec fn cascade_by_id(
    boxes: Seq<BoxView>,
    seeds: Seq<int>,
    dx: int,
    dy: int,
    reject_negative: bool,
) -> Seq<BoxView> {
    let order = order_after_cascade(boxes, seeds, dx, dy, 0);
    if places_allowed(boxes, order, dx, dy, reject_negative) {
        places_by_id(boxes, order, dx, dy)
    } else {
        boxes
    }
}

/// The boxes that a move of the selection starts with, as found among the
/// first `upto` boxes: for each selected box whose id is not scheduled when
/// its turn comes, the first box of that id.
pub open spec fn selected_in_order(boxes: Seq<BoxView>, upto: int) -> Seq<int>
    decreases upto,
{
    if upto <= 0 {
        Seq::empty()
    } else {
        let before = selected_in_order(boxes, upto - 1);
        let b = boxes[upto - 1];
        if b.selected && !id_scheduled(boxes, before, b.id) {
            match first_box_named(boxes, b.id) {
                Some(f) => before.push(f),
                None => before,
            }
        } else {
            before
        }
    }
}

/// The canvas after the command that moves the first box named `id` to
/// `(new_x, new_y)`, told for every canvas, also one on which boxes share
/// an id. On a canvas with distinct ids it is [`after_move_box`].
pub open spec fn after_move_box_by_id(
    canvas: CanvasView,
    id: Seq<char>,
    new_x: int,
    new_y: int,
    reject_negative: bool,
) -> CanvasView {
    match first_box_named(canvas.boxes, id) {
        Some(i) => {
            let dx = new_x - canvas.boxes[i].x;
            let dy = new_y - canvas.boxes[i].y;
            if dx == 0 && dy == 0 {
                canvas
            } else {
                CanvasView {
                    boxes: cascade_by_id(canvas.boxes, seq![i], dx, dy, reject_negative),
                    connections: canvas.connections,
                }
            }
        },
        None => canvas,
    }
}

/// The canvas after the command that moves the selected boxes by `(dx, dy)`,
/// told for every canvas, also one on which boxes share an id. On a canvas
/// with distinct ids it is [`after_move_selected`].
pub open spec fn after_move_selected_by_id(
    canvas: CanvasView,
    dx: int,
    dy: int,
    reject_negative: bool,
) -> CanvasView {
    if dx == 0 && dy == 0 {
        canvas
    } else {
        CanvasView {
            boxes: cascade_by_id(
                canvas.boxes,
                selected_in_order(canvas.boxes, canvas.boxes.len() as int),
                dx,
                dy,
                reject_negative,
            ),
            connections: canvas.connections,
        }
    }
}

/// Whether `order` lists boxes of which no two share an id.
pub open spec fn is_schedule(boxes: Seq<BoxView>, order: Seq<int>) -> bool {
    &&& forall|k: int| 0 <= k < order.len() ==> 0 <= #[trigger] order[k] < boxes.len()
    &&& forall|a: int, b: int|
        0 <= a < order.len() && 0 <= b < order.len() && a != b ==> boxes[#[trigger] order[a]].id
            != boxes[#[trigger] order[b]].id
}

/// In a schedule every box stands in for its own id.
pub proof fn lemma_scheduled_box_stands_in(boxes: Seq<BoxView>, order: Seq<int>, k: int)
    requires
        is_schedule(boxes, order),
        0 <= k < order.len(),
    ensures
        stand_in_for(boxes, order, boxes[order[k]].id) == Some(order[k]),
{
    let id = boxes[order[k]].id;
    let c = choose|c: int| 0 <= c < order.len() && boxes[#[trigger] order[c]].id == id;
    assert(c == k);
}

/// A sweep adds to a schedule, and leaves a schedule.
proof fn lemma_sweep_keeps_schedule(
    boxes: Seq<BoxView>,
    order: Seq<int>,
    mover: int,
    dx: int,
    dy: int,
    upto: int,
)
    requires
        is_schedule(boxes, order),
        0 <= upto <= boxes.len(),
    ensures
        is_schedule(boxes, order_after_sweep(boxes, order, mover, dx, dy, upto)),
        order.is_prefix_of(order_after_sweep(boxes, order, mover, dx, dy, upto)),
    decreases upto,
{
    if upto > 0 {
        lemma_sweep_keeps_schedule(boxes, order, mover, dx, dy, upto - 1);
        let before = order_after_sweep(boxes, order, mover, dx, dy, upto - 1);
        let after = order_after_sweep(boxes, order, mover, dx, dy, upto);
        let j = upto - 1;
        if !id_scheduled(boxes, before, boxes[j].id) && pushes(boxes, dx, dy, mover, j) {
            assert(after == before.push(j));
            assert forall|a: int, b: int|
                0 <= a < after.len() && 0 <= b < after.len() && a != b implies boxes[
            #[trigger] after[a]].id != boxes[#[trigger] after[b]].id by {
                if a < before.len() && b < before.len() {
                    assert(boxes[before[a]].id != boxes[before[b]].id);
                } else if a < before.len() {
                    assert(boxes[before[a]].id != boxes[j].id);
                } else {
                    assert(boxes[before[b]].id != boxes[j].id);
                }
            }
        }
    }
}

/// The cascade adds to a schedule, and leaves a schedule.
pub proof fn lemma_cascade_keeps_schedule(
    boxes: Seq<BoxView>,
    order: Seq<int>,
    dx: int,
    dy: int,
    head: int,
)
    requires
        is_schedule(boxes, order),
    ensures
        is_schedule(boxes, order_after_cascade(boxes, order, dx, dy, head)),
        order.is_prefix_of(order_after_cascade(boxes, order, dx, dy, head)),
    decreases boxes.len() - head,
{
    if 0 <= head < order.len() && head < boxes.len() {
        let swept = order_after_sweep(boxes, order, order[head], dx, dy, boxes.len() as int);
        lemma_sweep_keeps_schedule(boxes, order, order[head], dx, dy, boxes.len() as int);
        lemma_cascade_keeps_schedule(boxes, swept, dx, dy, head + 1);
    }
}

/// The boxes keep their ids when the boxes of a schedule move.
pub proof fn lemma_places_keep_ids(boxes: Seq<BoxView>, order: Seq<int>, dx: int, dy: int)
    ensures
        same_ids(boxes, places_by_id(boxes, order, dx, dy)),
{
}

/// A move by id keeps the ids of the boxes.
pub proof fn lemma_cascade_by_id_keeps_ids(
    boxes: Seq<BoxView>,
    seeds: Seq<int>,
    dx: int,
    dy: int,
    reject_negative: bool,
)
    ensures
        same_ids(boxes, cascade_by_id(boxes, seeds, dx, dy, reject_negative)),
{
    lemma_places_keep_ids(boxes, order_after_cascade(boxes, seeds, dx, dy, 0), dx, dy);
}

/// Atomicity: a move changes every box whose id is scheduled, or none.
pub proof fn lemma_cascade_by_id_is_atomic(
    boxes: Seq<BoxView>,
    seeds: Seq<int>,
    dx: int,
    dy: int,
    reject_negative: bool,
)
    ensures
        cascade_by_id(boxes, seeds, dx, dy, reject_negative) == boxes || cascade_by_id(
            boxes,
            seeds,
            dx,
            dy,
            reject_negative,
        ) == places_by_id(boxes, order_after_cascade(boxes, seeds, dx, dy, 0), dx, dy),
{
}

/// No-op law: moving a box that the canvas does not hold changes nothing.
pub proof fn lemma_move_unknown_box(
    canvas: CanvasView,
    id: Seq<char>,
    new_x: int,
    new_y: int,
    reject_negative: bool,
)
    requires
        forall|i: int| 0 <= i < canvas.boxes.len() ==> (#[trigger] canvas.boxes[i]).id != id,
    ensures
        after_move_box_by_id(canvas, id, new_x, new_y, reject_negative) == canvas,
{
}

/// No-op law: moving the selected boxes changes nothing where no box is
/// selected.
pub proof fn lemma_move_without_selection(
    canvas: CanvasView,
    dx: int,
    dy: int,
    reject_negative: bool,
)
    requires
        forall|j: int| 0 <= j < canvas.boxes.len() ==> !(#[trigger] canvas.boxes[j]).selected,
    ensures
        after_move_selected_by_id(canvas, dx, dy, reject_negative) == canvas,
{
    let boxes = canvas.boxes;
    lemma_nothing_selected(boxes, boxes.len() as int);
    let none = Seq::<int>::empty();
    assert(order_after_cascade(boxes, none, dx, dy, 0) == none);
    assert(places_by_id(boxes, none, dx, dy) =~= boxes);
}

proof fn lemma_nothing_selected(boxes: Seq<BoxView>, upto: int)
    requires
        forall|j: int| 0 <= j < boxes.len() ==> !(#[trigger] boxes[j]).selected,
        0 <= upto <= boxes.len(),
    ensures
        selected_in_order(boxes, upto) == Seq::<int>::empty(),
    decreases upto,
{
    if upto > 0 {
        lemma_nothing_selected(boxes, upto - 1);
        assert(!boxes[upto - 1].selected);
    }
}

/// No-op law: moving the selected boxes by nothing changes nothing.
pub proof fn lemma_move_selected_by_zero(canvas: CanvasView, reject_negative: bool)
    ensures
        after_move_selected_by_id(canvas, 0, 0, reject_negative) == canvas,
{
}

/// Idempotence: a second move of the same box to the same target changes
/// nothing more than the first.
pub proof fn lemma_move_box_idempotent(
    canvas: CanvasView,
    id: Seq<char>,
    new_x: int,
    new_y: int,
    reject_negative: bool,
)
    ensures
        after_move_box_by_id(
            after_move_box_by_id(canvas, id, new_x, new_y, reject_negative),
            id,
            new_x,
            new_y,
            reject_negative,
        ) == after_move_box_by_id(canvas, id, new_x, new_y, reject_negative),
{
    let once = after_move_box_by_id(canvas, id, new_x, new_y, reject_negative);
    lemma_first_box_named_is_first(canvas.boxes, id);
    match first_box_named(canvas.boxes, id) {
        Some(i) => {
            let dx = new_x - canvas.boxes[i].x;
            let dy = new_y - canvas.boxes[i].y;
            let seeds = seq![i];
            let order = order_after_cascade(canvas.boxes, seeds, dx, dy, 0);
            let moves = dx != 0 || dy != 0;
            if moves && places_allowed(canvas.boxes, order, dx, dy, reject_negative) {
                assert(is_schedule(canvas.boxes, seeds));
                lemma_cascade_keeps_schedule(canvas.boxes, seeds, dx, dy, 0);
                assert(order[0] == seeds[0]);
                lemma_scheduled_box_stands_in(canvas.boxes, order, 0);
                lemma_places_keep_ids(canvas.boxes, order, dx, dy);
                assert(is_first_box_named(once.boxes, id, i)) by {
                    assert forall|k: int| 0 <= k < i implies once.boxes[k].id != id by {
                        assert(canvas.boxes[k].id == once.boxes[k].id);
                    }
                    assert(canvas.boxes[i].id == once.boxes[i].id);
                }
                lemma_first_box_named(once.boxes, id, i);
                assert(once.boxes[i].x == new_x && once.boxes[i].y == new_y);
            }
        },
        None => {},
    }
}

/// Whether `order` lists boxes, and none of them twice.
pub open spec fn is_order(boxes: Seq<BoxView>, order: Seq<int>) -> bool {
    &&& forall|k: int| 0 <= k < order.len() ==> 0 <= #[trigger] order[k] < boxes.len()
    &&& order.no_duplicates()
}

/// Whether the cascade from `seeds` reaches every box of `order`.
spec fn all_reached(
    boxes: Seq<BoxView>,
    seeds: Set<int>,
    dx: int,
    dy: int,
    order: Seq<int>,
) -> bool {
    forall|k: int|
        0 <= k < order.len() ==> cascade_reaches(boxes, seeds, dx, dy, #[trigger] order[k])
}

/// Whether `order` holds every box that one of its first `head` boxes
/// pushes.
spec fn closed_upto(
    boxes: Seq<BoxView>,
    order: Seq<int>,
    dx: int,
    dy: int,
    head: int,
) -> bool {
    forall|k: int, j: int|
        0 <= k < head && k < order.len() && pushes(boxes, dx, dy, #[trigger] order[k], j)
            ==> #[trigger] order.contains(j)
}

/// A list of boxes without a box twice is no longer than the list of all
/// boxes.
proof fn lemma_order_is_short(boxes: Seq<BoxView>, order: Seq<int>)
    requires
        is_order(boxes, order),
    ensures
        order.len() <= boxes.len(),
{
    order.unique_seq_to_set();
    lemma_int_range(0, boxes.len() as int);
    assert(order.to_set().subset_of(set_int_range(0, boxes.len() as int))) by {
        assert forall|x: int| order.to_set().contains(x) implies set_int_range(
            0,
            boxes.len() as int,
        ).contains(x) by {
            let k = choose|k: int| 0 <= k < order.len() && order[k] == x;
            assert(0 <= order[k] < boxes.len());
        }
    }
    lemma_len_subset(order.to_set(), set_int_range(0, boxes.len() as int));
}

/// On a canvas with distinct ids, the id of a box is scheduled when the box
/// is, and the box stands in for itself.
proof fn lemma_scheduled_by_id(boxes: Seq<BoxView>, order: Seq<int>, j: int)
    requires
        ids_distinct(boxes),
        is_order(boxes, order),
        0 <= j < boxes.len(),
    ensures
        id_scheduled(boxes, order, boxes[j].id) == order.contains(j),
        stand_in_for(boxes, order, boxes[j].id) == (if order.contains(j) {
            Some(j)
        } else {
            None
        }),
{
    if order.contains(j) {
        let k = choose|k: int| 0 <= k < order.len() && order[k] == j;
        assert(boxes[order[k]].id == boxes[j].id);
    }
    if id_scheduled(boxes, order, boxes[j].id) {
        let k = choose|k: int| 0 <= k < order.len() && boxes[#[trigger] order[k]].id == boxes[j].id;
        assert(order[k] == j);
    }
}

/// On a canvas with distinct ids, one sweep schedules, behind the boxes that
/// are scheduled, boxes that the cascade reaches, and among them every one of
/// the first `upto` boxes that the mover pushes.
proof fn lemma_sweep_on_distinct_ids(
    boxes: Seq<BoxView>,
    seeds: Set<int>,
    order: Seq<int>,
    mover: int,
    dx: int,
    dy: int,
    upto: int,
)
    requires
        ids_distinct(boxes),
        is_order(boxes, order),
        all_reached(boxes, seeds, dx, dy, order),
        cascade_reaches(boxes, seeds, dx, dy, mover),
        0 <= upto <= boxes.len(),
    ensures
        ({
            let after = order_after_sweep(boxes, order, mover, dx, dy, upto);
            &&& is_order(boxes, after)
            &&& all_reached(boxes, seeds, dx, dy, after)
            &&& order.is_prefix_of(after)
            &&& forall|j: int|
                0 <= j < upto && pushes(boxes, dx, dy, mover, j) ==> #[trigger] after.contains(j)
        }),
    decreases upto,
{
    if upto > 0 {
        lemma_sweep_on_distinct_ids(boxes, seeds, order, mover, dx, dy, upto - 1);
        let before = order_after_sweep(boxes, order, mover, dx, dy, upto - 1);
        let after = order_after_sweep(boxes, order, mover, dx, dy, upto);
        let j = upto - 1;
        lemma_scheduled_by_id(boxes, before, j);
        if !before.contains(j) && pushes(boxes, dx, dy, mover, j) {
            lemma_pushed_is_reached(boxes, seeds, dx, dy, mover, j);
            assert(after == before.push(j));
            assert(after[before.len() as int] == j);
            assert forall|k: int| 0 <= k < after.len() implies cascade_reaches(
                boxes,
                seeds,
                dx,
                dy,
                #[trigger] after[k],
            ) by {
                if k < before.len() {
                    assert(after[k] == before[k]);
                }
            }
            assert forall|a: int, b: int|
                0 <= a < after.len() && 0 <= b < after.len() && a != b implies after[a]
                != after[b] by {
                if a < before.len() {
                    assert(before.contains(before[a]));
                }
                if b < before.len() {
                    assert(before.contains(before[b]));
                }
            }
            assert forall|i: int| 0 <= i < upto && pushes(boxes, dx, dy, mover, i) implies (
            #[trigger] after.contains(i)) by {
                if i < j {
                    assert(before.contains(i));
                    let k = choose|k: int| 0 <= k < before.len() && before[k] == i;
                    assert(after[k] == i);
                }
            }
        } else {
            assert(after == before);
            assert forall|i: int| 0 <= i < upto && pushes(boxes, dx, dy, mover, i) implies (
            #[trigger] after.contains(i)) by {
                if i < j {
                    assert(before.contains(i));
                }
            }
        }
    }
}

/// On a canvas with distinct ids, the cascade schedules boxes that it
/// reaches, and schedules everything that a scheduled box pushes.
proof fn lemma_cascade_on_distinct_ids(
    boxes: Seq<BoxView>,
    seeds: Set<int>,
    order: Seq<int>,
    dx: int,
    dy: int,
    head: int,
)
    requires
        ids_distinct(boxes),
        is_order(boxes, order),
        all_reached(boxes, seeds, dx, dy, order),
        0 <= head <= order.len(),
        closed_upto(boxes, order, dx, dy, head),
    ensures
        ({
            let after = order_after_cascade(boxes, order, dx, dy, head);
            &&& is_order(boxes, after)
            &&& all_reached(boxes, seeds, dx, dy, after)
            &&& order.is_prefix_of(after)
            &&& closed_upto(boxes, after, dx, dy, after.len() as int)
        }),
    decreases boxes.len() - head,
{
    lemma_order_is_short(boxes, order);
    if head < order.len() {
        let mover = order[head];
        let swept = order_after_sweep(boxes, order, mover, dx, dy, boxes.len() as int);
        lemma_sweep_on_distinct_ids(boxes, seeds, order, mover, dx, dy, boxes.len() as int);
        assert(closed_upto(boxes, swept, dx, dy, head + 1)) by {
            assert forall|k: int, j: int|
                0 <= k < head + 1 && k < swept.len() && pushes(
                    boxes,
                    dx,
                    dy,
                    #[trigger] swept[k],
                    j,
                ) implies #[trigger] swept.contains(j) by {
                assert(swept[k] == order[k]);
                if k < head {
                    assert(order.contains(j));
                    let at = choose|at: int| 0 <= at < order.len() && order[at] == j;
                    assert(swept[at] == j);
                }
            }
        }
        lemma_cascade_on_distinct_ids(boxes, seeds, swept, dx, dy, head + 1);
    }
}

/// On a canvas with distinct ids, the schedule that starts with `seeds` ends
/// with exactly the boxes that the cascade from `seeds` reaches, and the
/// move by id is the move of those boxes.
pub proof fn lemma_cascade_by_id_on_distinct_ids(
    boxes: Seq<BoxView>,
    seeds: Seq<int>,
    dx: int,
    dy: int,
    reject_negative: bool,
)
    requires
        ids_distinct(boxes),
        is_order(boxes, seeds),
    ensures
        forall|j: int|
            order_after_cascade(boxes, seeds, dx, dy, 0).contains(j) <==> #[trigger] cascade_reaches(
                boxes,
                seeds.to_set(),
                dx,
                dy,
                j,
            ),
        cascade_by_id(boxes, seeds, dx, dy, reject_negative) == cascade_result(
            boxes,
            seeds.to_set(),
            dx,
            dy,
            reject_negative,
        ),
{
    let start = seeds.to_set();
    let order = order_after_cascade(boxes, seeds, dx, dy, 0);
    assert(all_reached(boxes, start, dx, dy, seeds)) by {
        assert forall|k: int| 0 <= k < seeds.len() implies cascade_reaches(
            boxes,
            start,
            dx,
            dy,
            #[trigger] seeds[k],
        ) by {
            assert(start.contains(seeds[k]));
            lemma_seed_is_reached(boxes, start, dx, dy, seeds[k]);
        }
    }
    lemma_cascade_on_distinct_ids(boxes, start, seeds, dx, dy, 0);
    let inside = order.to_set();
    assert(closed_under_pushes(boxes, start, dx, dy, inside)) by {
        assert forall|s: int| start.contains(s) && 0 <= s < boxes.len() implies inside.contains(
            s,
        ) by {
            let k = choose|k: int| 0 <= k < seeds.len() && seeds[k] == s;
            assert(order[k] == s);
        }
        assert forall|i: int, j: int|
            inside.contains(i) && pushes(boxes, dx, dy, i, j) implies inside.contains(j) by {
            let k = choose|k: int| 0 <= k < order.len() && order[k] == i;
            assert(pushes(boxes, dx, dy, order[k], j));
            assert(order.contains(j));
        }
    }
    assert forall|j: int| order.contains(j) <==> #[trigger] cascade_reaches(
        boxes,
        start,
        dx,
        dy,
        j,
    ) by {
        if cascade_reaches(boxes, start, dx, dy, j) {
            lemma_reached_is_least(boxes, start, dx, dy, inside, j);
        }
        if order.contains(j) {
            let k = choose|k: int| 0 <= k < order.len() && order[k] == j;
            assert(cascade_reaches(boxes, start, dx, dy, order[k]));
        }
    }
    assert(places_by_id(boxes, order, dx, dy) =~= moved_by_cascade(boxes, start, dx, dy)) by {
        assert forall|j: int| 0 <= j < boxes.len() implies places_by_id(boxes, order, dx, dy)[j]
            == moved_by_cascade(boxes, start, dx, dy)[j] by {
            lemma_scheduled_by_id(boxes, order, j);
        }
    }
    assert(places_allowed(boxes, order, dx, dy, reject_negative) == cascade_allowed(
        boxes,
        start,
        dx,
        dy,
        reject_negative,
    )) by {
        if places_allowed(boxes, order, dx, dy, reject_negative) {
            assert forall|j: int| #[trigger]
                cascade_reaches(boxes, start, dx, dy, j) implies position_allowed(
                boxes[j].shifted(dx, dy),
                reject_negative,
            ) by {
                lemma_reached_is_a_box(boxes, start, dx, dy, j);
                lemma_scheduled_by_id(boxes, order, j);
                assert(id_scheduled(boxes, order, boxes[j].id));
                assert(position_allowed(places_by_id(boxes, order, dx, dy)[j], reject_negative));
            }
        }
        if cascade_allowed(boxes, start, dx, dy, reject_negative) {
            assert forall|j: int|
                0 <= j < boxes.len() && id_scheduled(
                    boxes,
                    order,
                    (#[trigger] boxes[j]).id,
                ) implies position_allowed(
                places_by_id(boxes, order, dx, dy)[j],
                reject_negative,
            ) by {
                lemma_scheduled_by_id(boxes, order, j);
                assert(cascade_reaches(boxes, start, dx, dy, j));
            }
        }
    }
}

/// On a canvas with distinct ids, a move of the selection starts with the
/// selected boxes, each once.
pub proof fn lemma_selected_in_order(boxes: Seq<BoxView>, upto: int)
    requires
        ids_distinct(boxes),
        0 <= upto <= boxes.len(),
    ensures
        is_order(boxes, selected_in_order(boxes, upto)),
        forall|j: int|
            selected_in_order(boxes, upto).contains(j) <==> 0 <= j < upto && (
            #[trigger] boxes[j]).selected,
    decreases upto,
{
    if upto > 0 {
        lemma_selected_in_order(boxes, upto - 1);
        let before = selected_in_order(boxes, upto - 1);
        let after = selected_in_order(boxes, upto);
        let j = upto - 1;
        lemma_scheduled_by_id(boxes, before, j);
        assert(is_first_box_named(boxes, boxes[j].id, j));
        lemma_first_box_named(boxes, boxes[j].id, j);
        if boxes[j].selected {
            assert(!before.contains(j));
            assert(after == before.push(j));
            assert(after[before.len() as int] == j);
            assert forall|a: int, b: int|
                0 <= a < after.len() && 0 <= b < after.len() && a != b implies after[a]
                != after[b] by {
                if a < before.len() {
                    assert(before.contains(before[a]));
                }
                if b < before.len() {
                    assert(before.contains(before[b]));
                }
            }
            assert forall|i: int| after.contains(i) <==> 0 <= i < upto && (
            #[trigger] boxes[i]).selected by {
                if after.contains(i) {
                    let k = choose|k: int| 0 <= k < after.len() && after[k] == i;
                    if k < before.len() {
                        assert(before.contains(before[k]));
                    }
                }
                if 0 <= i < upto && boxes[i].selected && i != j {
                    let k = choose|k: int| 0 <= k < before.len() && before[k] == i;
                    assert(after[k] == i);
                }
            }
        } else {
            assert(after == before);
        }
    }
}

/// On a canvas with distinct ids, the move of a box by id is the move of the
/// boxes that the cascade reaches.
pub proof fn lemma_move_box_on_distinct_ids(
    canvas: CanvasView,
    id: Seq<char>,
    new_x: int,
    new_y: int,
    reject_negative: bool,
)
    requires
        ids_distinct(canvas.boxes),
    ensures
        after_move_box_by_id(canvas, id, new_x, new_y, reject_negative) == after_move_box(
            canvas,
            id,
            new_x,
            new_y,
            reject_negative,
        ),
{
    lemma_first_box_named_is_first(canvas.boxes, id);
    match first_box_named(canvas.boxes, id) {
        Some(i) => {
            let dx = new_x - canvas.boxes[i].x;
            let dy = new_y - canvas.boxes[i].y;
            if dx == 0 && dy == 0 {
                lemma_zero_move(canvas.boxes, set![i], reject_negative);
            } else {
                let seeds = seq![i];
                assert(seeds[0] == i);
                assert(seeds.contains(i));
                assert(seeds.to_set() =~= set![i]);
                lemma_cascade_by_id_on_distinct_ids(canvas.boxes, seeds, dx, dy, reject_negative);
            }
        },
        None => {},
    }
}

/// On a canvas with distinct ids, the move of the selection by id is the
/// move of the boxes that the cascade reaches.
pub proof fn lemma_move_selected_on_distinct_ids(
    canvas: CanvasView,
    dx: int,
    dy: int,
    reject_negative: bool,
)
    requires
        ids_distinct(canvas.boxes),
    ensures
        after_move_selected_by_id(canvas, dx, dy, reject_negative) == after_move_selected(
            canvas,
            dx,
            dy,
            reject_negative,
        ),
{
    if dx == 0 && dy == 0 {
        lemma_zero_move(canvas.boxes, selected_boxes(canvas.boxes), reject_negative);
    } else {
        let seeds = selected_in_order(canvas.boxes, canvas.boxes.len() as int);
        lemma_selected_in_order(canvas.boxes, canvas.boxes.len() as int);
        assert(seeds.to_set() =~= selected_boxes(canvas.boxes));
        lemma_cascade_by_id_on_distinct_ids(canvas.boxes, seeds, dx, dy, reject_negative);
    }
}

} // verus!
