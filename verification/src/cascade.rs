//! The cascading move: what a move of some boxes by one vector does to the
//! boxes that stand in their way.
//!
//! A moved box pushes every box that it overlaps once it has moved, by the
//! same vector; the pushed box pushes on in turn. The boxes that move are the
//! ones that a chain of such pushes reaches from the boxes that the caller
//! moves. All of them move, or none does: the move is rejected as a whole
//! where one of them would come to stand at a coordinate that 32 bits cannot
//! hold or, under the boundary policy, at a negative one.
//!
//! Boxes that touch do not push each other, and once every push has been
//! followed no box that moved overlaps a box that stayed
//! ([`lemma_cascade_leaves_no_overlap`]). So no move is rejected for an
//! overlap that it would leave behind.
//!
//! This module says what a move does on a canvas whose ids are distinct. The
//! module [`crate::schedule`] tells the same move step by step, for every
//! canvas, and proves that the two agree.

use vstd::prelude::*;
use crate::model::{
    find_box, first_box_named, ids_distinct, lemma_same_ids_stay_distinct, BoxView, CanvasState,
    CanvasView,
};
use crate::store::AppState;
use crate::geometry::rects_intersect;
use crate::schedule::{
    after_move_box_by_id, after_move_selected_by_id, lemma_cascade_by_id_keeps_ids,
    lemma_move_box_on_distinct_ids, lemma_move_selected_on_distinct_ids, selected_in_order,
};
use crate::worklist::{cascade_from_box, cascade_from_selection};

verus! {

/// Whether box `i`, moved by `(dx, dy)`, overlaps box `j` where it stands.
pub open spec fn pushes(boxes: Seq<BoxView>, dx: int, dy: int, i: int, j: int) -> bool {
    &&& 0 <= i < boxes.len()
    &&& 0 <= j < boxes.len()
    &&& rects_intersect(boxes[i].shifted(dx, dy), boxes[j])
}

/// Whether `chain` lists boxes of which the first is a seed and each pushes
/// the next.
pub open spec fn is_push_chain(
    boxes: Seq<BoxView>,
    seeds: Set<int>,
    dx: int,
    dy: int,
    chain: Seq<int>,
) -> bool {
    &&& chain.len() > 0
    &&& seeds.contains(chain[0])
    &&& 0 <= chain[0] < boxes.len()
    &&& forall|k: int, l: int|
        0 <= k && l == k + 1 && l < chain.len() ==> pushes(
            boxes,
            dx,
            dy,
            #[trigger] chain[k],
            #[trigger] chain[l],
        )
}

/// Whether the move of `seeds` by `(dx, dy)` carries box `j` along: a chain
/// of pushes leads from a seed to `j`.
pub open spec fn cascade_reaches(
    boxes: Seq<BoxView>,
    seeds: Set<int>,
    dx: int,
    dy: int,
    j: int,
) -> bool {
    exists|chain: Seq<int>| #[trigger]
        is_push_chain(boxes, seeds, dx, dy, chain) && chain.last() == j
}

/// The boxes once every box that the cascade reaches has moved by `(dx, dy)`.
pub open spec fn moved_by_cascade(boxes: Seq<BoxView>, seeds: Set<int>, dx: int, dy: int) -> Seq<
    BoxView,
> {
    Seq::new(
        boxes.len(),
        |j: int|
            if cascade_reaches(boxes, seeds, dx, dy, j) {
                boxes[j].shifted(dx, dy)
            } else {
                boxes[j]
            },
    )
}

/// Whether a box may stand where `b` stands: its corner is a pair of 32-bit
/// coordinates, and under the boundary policy neither of them is negative.
pub open spec fn position_allowed(b: BoxView, reject_negative: bool) -> bool {
    &&& i32::MIN <= b.x <= i32::MAX
    &&& i32::MIN <= b.y <= i32::MAX
    &&& reject_negative ==> b.x >= 0 && b.y >= 0
}

/// Whether every box that the cascade reaches may stand where the move puts
/// it.
pub open spec fn cascade_allowed(
    boxes: Seq<BoxView>,
    seeds: Set<int>,
    dx: int,
    dy: int,
    reject_negative: bool,
) -> bool {
    forall|j: int| #[trigger]
        cascade_reaches(boxes, seeds, dx, dy, j) ==> position_allowed(
            boxes[j].shifted(dx, dy),
            reject_negative,
        )
}

/// The boxes after the transactional move of `seeds` by `(dx, dy)`: all the
/// boxes that the cascade reaches have moved, or, where one of them may not
/// stand at its new place, none has.
pub open spec fn cascade_result(
    boxes: Seq<BoxView>,
    seeds: Set<int>,
    dx: int,
    dy: int,
    reject_negative: bool,
) -> Seq<BoxView> {
    if cascade_allowed(boxes, seeds, dx, dy, reject_negative) {
        moved_by_cascade(boxes, seeds, dx, dy)
    } else {
        boxes
    }
}

/// The boxes that are selected.
pub open spec fn selected_boxes(boxes: Seq<BoxView>) -> Set<int> {
    Set::new(|i: int| 0 <= i < boxes.len() && boxes[i].selected)
}

/// The canvas after the command that moves the first box named `id` to
/// `(new_x, new_y)`: the cascade of that one box, by the vector from where it
/// stands to where it is to stand. A canvas without such a box stays as it
/// is.
pub open spec fn after_move_box(
    canvas: CanvasView,
    id: Seq<char>,
    new_x: int,
    new_y: int,
    reject_negative: bool,
) -> CanvasView {
    match first_box_named(canvas.boxes, id) {
        Some(i) => CanvasView {
            boxes: cascade_result(
                canvas.boxes,
                set![i],
                new_x - canvas.boxes[i].x,
                new_y - canvas.boxes[i].y,
                reject_negative,
            ),
            connections: canvas.connections,
        },
        None => canvas,
    }
}

/// The canvas after the command that moves the selected boxes by `(dx, dy)`.
pub open spec fn after_move_selected(
    canvas: CanvasView,
    dx: int,
    dy: int,
    reject_negative: bool,
) -> CanvasView {
    CanvasView {
        boxes: cascade_result(canvas.boxes, selected_boxes(canvas.boxes), dx, dy, reject_negative),
        connections: canvas.connections,
    }
}

/// A seed is reached.
pub proof fn lemma_seed_is_reached(boxes: Seq<BoxView>, seeds: Set<int>, dx: int, dy: int, s: int)
    requires
        seeds.contains(s),
        0 <= s < boxes.len(),
    ensures
        cascade_reaches(boxes, seeds, dx, dy, s),
{
    let chain = seq![s];
    assert(is_push_chain(boxes, seeds, dx, dy, chain) && chain.last() == s);
}

/// What a reached box pushes is reached.
pub proof fn lemma_pushed_is_reached(
    boxes: Seq<BoxView>,
    seeds: Set<int>,
    dx: int,
    dy: int,
    i: int,
    j: int,
)
    requires
        cascade_reaches(boxes, seeds, dx, dy, i),
        pushes(boxes, dx, dy, i, j),
    ensures
        cascade_reaches(boxes, seeds, dx, dy, j),
{
    let chain = choose|chain: Seq<int>| #[trigger]
        is_push_chain(boxes, seeds, dx, dy, chain) && chain.last() == i;
    let longer = chain.push(j);
    assert forall|k: int, l: int| 0 <= k && l == k + 1 && l < longer.len() implies pushes(
        boxes,
        dx,
        dy,
        #[trigger] longer[k],
        #[trigger] longer[l],
    ) by {
        if l < chain.len() {
            assert(longer[k] == chain[k] && longer[l] == chain[l]);
        } else {
            assert(longer[k] == chain.last() && longer[l] == j);
        }
    }
    assert(is_push_chain(boxes, seeds, dx, dy, longer) && longer.last() == j);
}

/// A reached box is a box.
pub proof fn lemma_reached_is_a_box(
    boxes: Seq<BoxView>,
    seeds: Set<int>,
    dx: int,
    dy: int,
    j: int,
)
    requires
        cascade_reaches(boxes, seeds, dx, dy, j),
    ensures
        0 <= j < boxes.len(),
{
    let chain = choose|chain: Seq<int>| #[trigger]
        is_push_chain(boxes, seeds, dx, dy, chain) && chain.last() == j;
    if chain.len() > 1 {
        let k = chain.len() - 2;
        assert(pushes(boxes, dx, dy, chain[k], chain[k + 1]));
    }
}

/// Whether `inside` holds every seed that is a box, and everything that a
/// box in it pushes.
pub open spec fn closed_under_pushes(
    boxes: Seq<BoxView>,
    seeds: Set<int>,
    dx: int,
    dy: int,
    inside: Set<int>,
) -> bool {
    &&& forall|s: int| seeds.contains(s) && 0 <= s < boxes.len() ==> inside.contains(s)
    &&& forall|i: int, j: int|
        inside.contains(i) && pushes(boxes, dx, dy, i, j) ==> inside.contains(j)
}

/// The reached boxes are the least set that holds the seeds and is closed
/// under pushes: every such set holds each of them.
pub proof fn lemma_reached_is_least(
    boxes: Seq<BoxView>,
    seeds: Set<int>,
    dx: int,
    dy: int,
    inside: Set<int>,
    j: int,
)
    requires
        closed_under_pushes(boxes, seeds, dx, dy, inside),
        cascade_reaches(boxes, seeds, dx, dy, j),
    ensures
        inside.contains(j),
{
    let chain = choose|chain: Seq<int>| #[trigger]
        is_push_chain(boxes, seeds, dx, dy, chain) && chain.last() == j;
    lemma_chain_stays_inside(boxes, seeds, dx, dy, inside, chain, chain.len() - 1);
}

proof fn lemma_chain_stays_inside(
    boxes: Seq<BoxView>,
    seeds: Set<int>,
    dx: int,
    dy: int,
    inside: Set<int>,
    chain: Seq<int>,
    k: int,
)
    requires
        closed_under_pushes(boxes, seeds, dx, dy, inside),
        is_push_chain(boxes, seeds, dx, dy, chain),
        0 <= k < chain.len(),
    ensures
        inside.contains(chain[k]),
    decreases k,
{
    if k > 0 {
        lemma_chain_stays_inside(boxes, seeds, dx, dy, inside, chain, k - 1);
        assert(pushes(boxes, dx, dy, chain[k - 1], chain[k]));
    }
}

/// A move by nothing changes nothing.
pub proof fn lemma_zero_move(boxes: Seq<BoxView>, seeds: Set<int>, reject_negative: bool)
    ensures
        cascade_result(boxes, seeds, 0, 0, reject_negative) == boxes,
{
    assert(moved_by_cascade(boxes, seeds, 0, 0) =~= boxes) by {
        assert forall|j: int| 0 <= j < boxes.len() implies boxes[j].shifted(0, 0) == boxes[j] by {}
    }
}

/// One vector for the whole cascade: after a move every box stands where it
/// stood, or away from there by exactly the vector of the move, and keeps
/// everything else.
pub proof fn lemma_cascade_moves_by_one_vector(
    boxes: Seq<BoxView>,
    seeds: Set<int>,
    dx: int,
    dy: int,
    reject_negative: bool,
    j: int,
)
    requires
        0 <= j < boxes.len(),
    ensures
        cascade_result(boxes, seeds, dx, dy, reject_negative).len() == boxes.len(),
        ({
            let after = cascade_result(boxes, seeds, dx, dy, reject_negative)[j];
            after == boxes[j] || after == boxes[j].shifted(dx, dy)
        }),
{
}

/// No leftover overlap: once the cascade has run its course, no box that
/// moved overlaps a box that stayed. A move is therefore never rejected for
/// an overlap that it would leave behind.
pub proof fn lemma_cascade_leaves_no_overlap(
    boxes: Seq<BoxView>,
    seeds: Set<int>,
    dx: int,
    dy: int,
    i: int,
    j: int,
)
    requires
        cascade_reaches(boxes, seeds, dx, dy, i),
        0 <= j < boxes.len(),
        !cascade_reaches(boxes, seeds, dx, dy, j),
    ensures
        !rects_intersect(
            moved_by_cascade(boxes, seeds, dx, dy)[i],
            moved_by_cascade(boxes, seeds, dx, dy)[j],
        ),
{
    lemma_reached_is_a_box(boxes, seeds, dx, dy, i);
    if pushes(boxes, dx, dy, i, j) {
        lemma_pushed_is_reached(boxes, seeds, dx, dy, i, j);
    }
}

impl AppState {
    /// Moves the first box named `box_id` to `(new_x, new_y)`, and with it
    /// every box that the cascade reaches, or leaves the canvas as it is:
    /// where no box has that name, where the box stands there already, and
    /// where the move is rejected. Returns the canvas after the command.
    ///
    /// A move is rejected where it would put a box at a coordinate that 32
    /// bits cannot hold, or, under the boundary policy, at a negative one.
    pub fn move_box(&mut self, box_id: String, new_x: i32, new_y: i32) -> (r: CanvasState)
        ensures
            final(self).reject_negative_coordinates == old(self).reject_negative_coordinates,
            final(self).canvas_state@ == after_move_box_by_id(
                old(self).canvas_state@,
                box_id@,
                new_x as int,
                new_y as int,
                old(self).reject_negative_coordinates,
            ),
            ids_distinct(old(self).canvas_state@.boxes) ==> final(self).canvas_state@
                == after_move_box(
                old(self).canvas_state@,
                box_id@,
                new_x as int,
                new_y as int,
                old(self).reject_negative_coordinates,
            ),
            old(self).canvas_state@.is_valid() ==> final(self).canvas_state@.is_valid(),
            r@ == final(self).canvas_state@,
    {
        let ghost views = self.canvas_state@.boxes;
        proof {
            match first_box_named(views, box_id@) {
                Some(i) => {
                    lemma_cascade_by_id_keeps_ids(
                        views,
                        seq![i],
                        new_x - views[i].x,
                        new_y - views[i].y,
                        self.reject_negative_coordinates,
                    );
                },
                None => {},
            }
            if ids_distinct(views) {
                lemma_move_box_on_distinct_ids(
                    self.canvas_state@,
                    box_id@,
                    new_x as int,
                    new_y as int,
                    self.reject_negative_coordinates,
                );
            }
        }
        match find_box(&self.canvas_state.boxes, &box_id) {
            Some(f) => {
                assert(views[f as int] == self.canvas_state.boxes@[f as int]@);
                let dx: i64 = new_x as i64 - self.canvas_state.boxes[f].x as i64;
                let dy: i64 = new_y as i64 - self.canvas_state.boxes[f].y as i64;
                if dx != 0 || dy != 0 {
                    match cascade_from_box(
                        &self.canvas_state.boxes,
                        f,
                        dx,
                        dy,
                        self.reject_negative_coordinates,
                    ) {
                        Some(placed) => {
                            self.canvas_state.boxes = placed;
                        },
                        None => {},
                    }
                }
            },
            None => {},
        }
        proof {
            if ids_distinct(views) {
                lemma_same_ids_stay_distinct(views, self.canvas_state@.boxes);
            }
        }
        self.canvas_state.clone()
    }

    /// Moves every selected box by `(delta_x, delta_y)`, and with them every
    /// box that the cascade reaches, or leaves the canvas as it is: where the
    /// vector is zero, where no box is selected, and where the move is
    /// rejected. Returns the canvas after the command.
    ///
    /// A move is rejected where it would put a box at a coordinate that 32
    /// bits cannot hold, or, under the boundary policy, at a negative one.
    pub fn move_selected_boxes(&mut self, delta_x: i32, delta_y: i32) -> (r: CanvasState)
        ensures
            final(self).reject_negative_coordinates == old(self).reject_negative_coordinates,
            final(self).canvas_state@ == after_move_selected_by_id(
                old(self).canvas_state@,
                delta_x as int,
                delta_y as int,
                old(self).reject_negative_coordinates,
            ),
            ids_distinct(old(self).canvas_state@.boxes) ==> final(self).canvas_state@
                == after_move_selected(
                old(self).canvas_state@,
                delta_x as int,
                delta_y as int,
                old(self).reject_negative_coordinates,
            ),
            old(self).canvas_state@.is_valid() ==> final(self).canvas_state@.is_valid(),
            r@ == final(self).canvas_state@,
    {
        let ghost views = self.canvas_state@.boxes;
        proof {
            lemma_cascade_by_id_keeps_ids(
                views,
                selected_in_order(views, views.len() as int),
                delta_x as int,
                delta_y as int,
                self.reject_negative_coordinates,
            );
            if ids_distinct(self.canvas_state@.boxes) {
                lemma_move_selected_on_distinct_ids(
                    self.canvas_state@,
                    delta_x as int,
                    delta_y as int,
                    self.reject_negative_coordinates,
                );
            }
        }
        if delta_x == 0 && delta_y == 0 {
            return self.canvas_state.clone();
        }
        match cascade_from_selection(
            &self.canvas_state.boxes,
            delta_x as i64,
            delta_y as i64,
            self.reject_negative_coordinates,
        ) {
            Some(placed) => {
                self.canvas_state.boxes = placed;
            },
            None => {},
        }
        proof {
            if ids_distinct(views) {
                lemma_same_ids_stay_distinct(views, self.canvas_state@.boxes);
            }
        }
        self.canvas_state.clone()
    }
}

} // verus!
