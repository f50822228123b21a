//! The worklist of a cascade: the bookkeeping by which the boxes that a move
//! reaches are found, one after the other.
//!
//! The boxes that are to move are scheduled; each scheduled box is held, at
//! its new place, against every box that is not scheduled yet, and what it
//! overlaps is scheduled in turn. A box is scheduled once, so the work ends.

use vstd::prelude::*;
use vstd::set_lib::{lemma_int_range, lemma_len_subset, set_int_range};
use crate::cascade::{position_allowed, pushes};
use crate::geometry::{do_boxes_intersect, rects_intersect};
use crate::model::{box_views, find_box, Box, BoxView};
use crate::schedule::{
    cascade_by_id, id_scheduled, order_after_cascade, order_after_sweep, places_allowed,
    places_by_id, selected_in_order, stand_in_for,
};

verus! {

/// The places of a list of boxes, as integers.
pub open spec fn indices(order: Seq<usize>) -> Seq<int> {
    order.map_values(|k: usize| k as int)
}

/// Whether `d` is the difference of two 32-bit coordinates.
pub open spec fn is_delta(d: int) -> bool {
    -0x1_0000_0000 < d < 0x1_0000_0000
}

/// Whether `a`, moved by `(dx, dy)`, overlaps `b` where it stands.
fn pushes_box(a: &Box, dx: i64, dy: i64, b: &Box) -> (r: bool)
    requires
        is_delta(dx as int),
        is_delta(dy as int),
    ensures
        r == rects_intersect(a@.shifted(dx as int, dy as int), b@),
{
    let ax: i64 = a.x as i64 + dx;
    let ay: i64 = a.y as i64 + dy;
    let bx: i64 = b.x as i64;
    let by: i64 = b.y as i64;
    ax < bx + b.width as i64 && bx < ax + a.width as i64 && ay < by + b.height as i64 && by < ay
        + a.height as i64
}

/// Indices below `n` of which none occurs twice are at most `n`.
proof fn lemma_distinct_indices_are_few(order: Seq<usize>, n: nat)
    requires
        order.no_duplicates(),
        forall|k: int| 0 <= k < order.len() ==> (#[trigger] order[k]) < n,
    ensures
        order.len() <= n,
{
    let ints = order.map_values(|x: usize| x as int);
    assert(ints.no_duplicates()) by {
        assert forall|a: int, b: int|
            0 <= a < ints.len() && 0 <= b < ints.len() && a != b implies ints[a] != ints[b] by {
            assert(order[a] != order[b]);
        }
    }
    ints.unique_seq_to_set();
    lemma_int_range(0, n as int);
    assert(ints.to_set().subset_of(set_int_range(0, n as int))) by {
        assert forall|x: int| ints.to_set().contains(x) implies set_int_range(
            0,
            n as int,
        ).contains(x) by {
            let k = choose|k: int| 0 <= k < ints.len() && ints[k] == x;
            assert(order[k] < n);
        }
    }
    lemma_len_subset(ints.to_set(), set_int_range(0, n as int));
}

/// The bookkeeping of one cascade.
///
/// A box is scheduled to move by its id: once one box of an id is scheduled,
/// every box of that id is, and the box that was scheduled stands in for all
/// of them.
struct Worklist {
    /// For each box, the box that stands in for its id, once that id is
    /// scheduled.
    stand_in: Vec<Option<usize>>,
    /// The boxes that were scheduled, in the order in which they were.
    order: Vec<usize>,
}

impl Worklist {
    spec fn scheduled(self, i: int) -> bool {
        self.stand_in@[i] is Some
    }

    spec fn wf(self, boxes: Seq<BoxView>) -> bool {
        &&& self.stand_in@.len() == boxes.len()
        &&& forall|i: int|
            0 <= i < boxes.len() ==> (#[trigger] self.stand_in@[i] matches Some(r) ==> {
                &&& r < boxes.len()
                &&& boxes[r as int].id == boxes[i].id
                &&& self.order@.contains(r)
            })
        &&& forall|i: int, i2: int|
            0 <= i < boxes.len() && 0 <= i2 < boxes.len() && boxes[i].id == boxes[i2].id
                ==> #[trigger] self.stand_in@[i] == #[trigger] self.stand_in@[i2]
        &&& forall|k: int|
            0 <= k < self.order@.len() ==> {
                &&& (#[trigger] self.order@[k]) < boxes.len()
                &&& self.stand_in@[self.order@[k] as int] == Some(self.order@[k])
            }
        &&& self.order@.no_duplicates()
    }

    /// A box is scheduled when its id is, and its stand-in is the scheduled
    /// box of its id.
    proof fn lemma_stand_in_by_id(self, boxes: Seq<BoxView>, j: int)
        requires
            self.wf(boxes),
            0 <= j < boxes.len(),
        ensures
            self.scheduled(j) == id_scheduled(boxes, indices(self.order@), boxes[j].id),
            stand_in_for(boxes, indices(self.order@), boxes[j].id) == (match self.stand_in@[j] {
                Some(r) => Some(r as int),
                None => None,
            }),
    {
        let order = indices(self.order@);
        if id_scheduled(boxes, order, boxes[j].id) {
            let k = choose|k: int|
                0 <= k < order.len() && boxes[#[trigger] order[k]].id == boxes[j].id;
            assert(order[k] == self.order@[k]);
            assert(self.stand_in@[self.order@[k] as int] == Some(self.order@[k]));
            assert(self.stand_in@[j] == self.stand_in@[self.order@[k] as int]);
        }
        if self.stand_in@[j] is Some {
            let r = self.stand_in@[j]->0;
            let k = choose|k: int| 0 <= k < self.order@.len() && self.order@[k] == r;
            assert(order[k] == r as int);
            assert(boxes[order[k]].id == boxes[j].id);
        }
    }

    /// A worklist for `n` boxes with nothing scheduled.
    fn new(n: usize, Ghost(boxes): Ghost<Seq<BoxView>>) -> (r: Worklist)
        requires
            boxes.len() == n,
        ensures
            r.wf(boxes),
            r.order@.len() == 0,
            forall|i: int| 0 <= i < n ==> !r.scheduled(i),
    {
        let mut stand_in: Vec<Option<usize>> = Vec::new();
        let mut i: usize = 0;
        while i < n
            invariant
                i <= n,
                stand_in@.len() == i,
                forall|k: int| 0 <= k < i ==> stand_in@[k] is None,
            decreases n - i,
        {
            stand_in.push(None);
            i += 1;
        }
        Worklist { stand_in, order: Vec::new() }
    }

    /// Schedules box `j`, and with it every box of its id.
    fn schedule(&mut self, boxes: &Vec<Box>, j: usize)
        requires
            old(self).wf(box_views(boxes@)),
            j < boxes.len(),
            !old(self).scheduled(j as int),
        ensures
            final(self).wf(box_views(boxes@)),
            final(self).order@ == old(self).order@.push(j),
            forall|i: int|
                0 <= i < boxes.len() ==> #[trigger] final(self).stand_in@[i] == (if boxes[i].id@
                    == boxes[j as int].id@ {
                    Some(j)
                } else {
                    old(self).stand_in@[i]
                }),
    {
        let ghost views = box_views(boxes@);
        let ghost before = *self;
        let n = boxes.len();
        let mut i: usize = 0;
        while i < n
            invariant
                i <= n,
                n == boxes.len(),
                j < n,
                self.stand_in@.len() == n,
                self.order@ == before.order@,
                forall|k: int|
                    0 <= k < i ==> #[trigger] self.stand_in@[k] == (if boxes[k].id@
                        == boxes[j as int].id@ {
                        Some(j)
                    } else {
                        before.stand_in@[k]
                    }),
                forall|k: int| i <= k < n ==> self.stand_in@[k] == before.stand_in@[k],
            decreases n - i,
        {
            if boxes[i].id == boxes[j].id {
                self.stand_in[i] = Some(j);
            }
            i += 1;
        }
        self.order.push(j);
        proof {
            assert forall|k: int| 0 <= k < views.len() implies views[k].id == boxes[k].id@ by {}
            assert forall|k: int| 0 <= k < self.order@.len() implies {
                &&& (#[trigger] self.order@[k]) < views.len()
                &&& self.stand_in@[self.order@[k] as int] == Some(self.order@[k])
            } by {
                if k < before.order@.len() {
                    let o = before.order@[k];
                    assert(before.stand_in@[o as int] == Some(o));
                    assert(before.stand_in@[j as int] is None);
                }
            }
            assert(self.order@.no_duplicates()) by {
                assert forall|a: int, b: int|
                    0 <= a < self.order@.len() && 0 <= b < self.order@.len() && a
                        != b implies self.order@[a] != self.order@[b] by {
                    if a < before.order@.len() {
                        assert(before.stand_in@[before.order@[a] as int] is Some);
                    }
                    if b < before.order@.len() {
                        assert(before.stand_in@[before.order@[b] as int] is Some);
                    }
                }
            }
            assert forall|i: int| 0 <= i < views.len() implies (
            #[trigger] self.stand_in@[i] matches Some(r) ==> {
                &&& r < views.len()
                &&& views[r as int].id == views[i].id
                &&& self.order@.contains(r)
            }) by {
                if views[i].id == views[j as int].id {
                    assert(self.order@[self.order@.len() - 1] == j);
                } else if before.stand_in@[i] is Some {
                    let r = before.stand_in@[i]->0;
                    let k = choose|k: int| 0 <= k < before.order@.len() && before.order@[k] == r;
                    assert(self.order@[k] == r);
                }
            }
        }
    }

    /// Whether every box that one of the first `head` boxes of the order
    /// pushes is scheduled.
    spec fn closed(self, boxes: Seq<BoxView>, dx: int, dy: int, head: int) -> bool {
        forall|k: int, j: int|
            0 <= k < head && pushes(boxes, dx, dy, #[trigger] self.order@[k] as int, j)
                ==> #[trigger] self.scheduled(j)
    }

    /// Where box `j` stands once the scheduled boxes have moved.
    spec fn placed(self, boxes: Seq<BoxView>, dx: int, dy: int, j: int) -> BoxView {
        match self.stand_in@[j] {
            Some(r) => boxes[r as int].shifted(dx, dy),
            None => boxes[j],
        }
    }

    /// Takes the boxes of the order one by one, first scheduled first, and
    /// schedules every box that the moved one overlaps and that is not
    /// scheduled yet, until none is left.
    fn propagate(&mut self, boxes: &Vec<Box>, dx: i64, dy: i64)
        requires
            old(self).wf(box_views(boxes@)),
            is_delta(dx as int),
            is_delta(dy as int),
        ensures
            final(self).wf(box_views(boxes@)),
            final(self).closed(
                box_views(boxes@),
                dx as int,
                dy as int,
                final(self).order@.len() as int,
            ),
            indices(final(self).order@) == order_after_cascade(
                box_views(boxes@),
                indices(old(self).order@),
                dx as int,
                dy as int,
                0,
            ),
    {
        let ghost views = box_views(boxes@);
        let ghost before = *self;
        let n = boxes.len();
        let mut head: usize = 0;
        while head < self.order.len()
            invariant
                n == boxes.len(),
                order_after_cascade(views, indices(self.order@), dx as int, dy as int, head as int)
                    == order_after_cascade(
                    views,
                    indices(before.order@),
                    dx as int,
                    dy as int,
                    0,
                ),
                views == box_views(boxes@),
                is_delta(dx as int),
                is_delta(dy as int),
                self.wf(views),
                head <= self.order@.len(),
                head <= n,
                self.closed(views, dx as int, dy as int, head as int),
            decreases n - head,
        {
            let ghost start = indices(self.order@);
            proof {
                lemma_distinct_indices_are_few(self.order@, n as nat);
            }
            let m = self.order[head];
            let mut j: usize = 0;
            while j < n
                invariant
                    n == boxes.len(),
                    indices(self.order@) == order_after_sweep(
                        views,
                        start,
                        m as int,
                        dx as int,
                        dy as int,
                        j as int,
                    ),
                    views == box_views(boxes@),
                    is_delta(dx as int),
                    is_delta(dy as int),
                    self.wf(views),
                    j <= n,
                    head < self.order@.len(),
                    self.order@[head as int] == m,
                    m < n,
                    self.closed(views, dx as int, dy as int, head as int),
                    forall|j2: int|
                        0 <= j2 < j && pushes(views, dx as int, dy as int, m as int, j2)
                            ==> #[trigger] self.scheduled(j2),
                decreases n - j,
            {
                assert(views[j as int] == boxes[j as int]@ && views[m as int] == boxes[m as int]@);
                proof {
                    self.lemma_stand_in_by_id(views, j as int);
                }
                if self.stand_in[j].is_none() && pushes_box(&boxes[m], dx, dy, &boxes[j]) {
                    let ghost prev = *self;
                    self.schedule(boxes, j);
                    proof {
                        assert(indices(self.order@) =~= indices(prev.order@).push(j as int));
                        assert forall|i: int| 0 <= i < n && prev.scheduled(i) implies self.scheduled(
                            i,
                        ) by {
                            assert(self.stand_in@[i] is Some);
                        }
                        assert(self.closed(views, dx as int, dy as int, head as int)) by {
                            assert forall|k: int, j3: int|
                                0 <= k < head && pushes(
                                    views,
                                    dx as int,
                                    dy as int,
                                    #[trigger] self.order@[k] as int,
                                    j3,
                                ) implies #[trigger] self.scheduled(j3) by {
                                assert(prev.order@[k] == self.order@[k]);
                                assert(prev.scheduled(j3));
                            }
                        }
                        assert forall|j2: int|
                            0 <= j2 < j + 1 && pushes(
                                views,
                                dx as int,
                                dy as int,
                                m as int,
                                j2,
                            ) implies #[trigger] self.scheduled(j2) by {
                            if j2 < j {
                                assert(prev.scheduled(j2));
                            }
                        }
                    }
                }
                j += 1;
            }
            proof {
                lemma_distinct_indices_are_few(self.order@, n as nat);
                assert(start[head as int] == m);
            }
            head += 1;
        }
    }

    /// The boxes with every scheduled box replaced by its stand-in at its new
    /// place, or `None` where one of the new places is not allowed.
    fn materialize(&self, boxes: &Vec<Box>, dx: i64, dy: i64, reject_negative: bool) -> (r:
        Option<Vec<Box>>)
        requires
            self.wf(box_views(boxes@)),
            is_delta(dx as int),
            is_delta(dy as int),
        ensures
            match r {
                Some(v) => {
                    &&& v@.len() == boxes@.len()
                    &&& forall|j: int|
                        0 <= j < boxes@.len() ==> {
                            &&& (#[trigger] v@[j])@ == self.placed(
                                box_views(boxes@),
                                dx as int,
                                dy as int,
                                j,
                            )
                            &&& self.scheduled(j) ==> position_allowed(v@[j]@, reject_negative)
                        }
                },
                None => exists|j: int|
                    0 <= j < boxes@.len() && #[trigger] self.scheduled(j) && !position_allowed(
                        self.placed(box_views(boxes@), dx as int, dy as int, j),
                        reject_negative,
                    ),
            },
    {
        let ghost views = box_views(boxes@);
        let n = boxes.len();
        let mut out: Vec<Box> = Vec::new();
        let mut j: usize = 0;
        while j < n
            invariant
                n == boxes.len(),
                views == box_views(boxes@),
                self.wf(views),
                is_delta(dx as int),
                is_delta(dy as int),
                j <= n,
                out@.len() == j,
                forall|k: int|
                    0 <= k < j ==> {
                        &&& (#[trigger] out@[k])@ == self.placed(views, dx as int, dy as int, k)
                        &&& self.scheduled(k) ==> position_allowed(out@[k]@, reject_negative)
                    },
            decreases n - j,
        {
            assert(views[j as int] == boxes[j as int]@);
            match self.stand_in[j] {
                Some(r) => {
                    assert(views[r as int] == boxes[r as int]@);
                    let nx: i64 = boxes[r].x as i64 + dx;
                    let ny: i64 = boxes[r].y as i64 + dy;
                    if nx < i32::MIN as i64 || nx > i32::MAX as i64 || ny < i32::MIN as i64 || ny
                        > i32::MAX as i64 || (reject_negative && (nx < 0 || ny < 0)) {
                        assert(self.scheduled(j as int));
                        return None;
                    }
                    let mut moved = boxes[r].clone();
                    moved.x = nx as i32;
                    moved.y = ny as i32;
                    out.push(moved);
                },
                None => {
                    out.push(boxes[j].clone());
                },
            }
            j += 1;
        }
        Some(out)
    }

    /// Whether no box of the order overlaps a box that is not scheduled, in
    /// the list `placed` of the boxes at their new places.
    fn settled(&self, placed: &Vec<Box>) -> (r: bool)
        requires
            self.stand_in@.len() == placed@.len(),
            forall|k: int|
                0 <= k < self.order@.len() ==> (#[trigger] self.order@[k]) < placed@.len(),
        ensures
            r == forall|k: int, j: int|
                0 <= k < self.order@.len() && 0 <= j < placed@.len() && !self.scheduled(j)
                    ==> !rects_intersect(
                    (#[trigger] placed@[self.order@[k] as int])@,
                    (#[trigger] placed@[j])@,
                ),
    {
        let n = placed.len();
        let mut k: usize = 0;
        while k < self.order.len()
            invariant
                n == placed@.len(),
                self.stand_in@.len() == n,
                k <= self.order@.len(),
                forall|k2: int|
                    0 <= k2 < self.order@.len() ==> (#[trigger] self.order@[k2]) < placed@.len(),
                forall|k2: int, j: int|
                    0 <= k2 < k && 0 <= j < n && !self.scheduled(j) ==> !rects_intersect(
                        (#[trigger] placed@[self.order@[k2] as int])@,
                        (#[trigger] placed@[j])@,
                    ),
            decreases self.order@.len() - k,
        {
            let m = self.order[k];
            let mut j: usize = 0;
            while j < n
                invariant
                    n == placed@.len(),
                    self.stand_in@.len() == n,
                    k < self.order@.len(),
                    m == self.order@[k as int],
                    m < n,
                    j <= n,
                    forall|j2: int|
                        0 <= j2 < j && !self.scheduled(j2) ==> !rects_intersect(
                            placed@[m as int]@,
                            (#[trigger] placed@[j2])@,
                        ),
                decreases n - j,
            {
                if self.stand_in[j].is_none() && do_boxes_intersect(&placed[m], &placed[j]) {
                    assert(!self.scheduled(j as int));
                    return false;
                }
                j += 1;
            }
            k += 1;
        }
        true
    }
}

impl Worklist {
    /// A box is scheduled when its id is, and stands after the move where
    /// the scheduled box of its id stands.
    proof fn lemma_placed_by_id(self, boxes: Seq<BoxView>, dx: int, dy: int, j: int)
        requires
            self.wf(boxes),
            0 <= j < boxes.len(),
        ensures
            self.scheduled(j) == id_scheduled(boxes, indices(self.order@), boxes[j].id),
            self.placed(boxes, dx, dy, j) == places_by_id(boxes, indices(self.order@), dx, dy)[j],
    {
        self.lemma_stand_in_by_id(boxes, j);
    }

    /// A worklist that has run to its end leaves nothing to push: no
    /// scheduled box, at its new place, overlaps a box that is not scheduled.
    proof fn lemma_nothing_left_to_push(
        self,
        boxes: Seq<BoxView>,
        dx: int,
        dy: int,
        placed: Seq<BoxView>,
    )
        requires
            self.wf(boxes),
            self.closed(boxes, dx, dy, self.order@.len() as int),
            placed.len() == boxes.len(),
            forall|j: int|
                0 <= j < boxes.len() ==> #[trigger] placed[j] == self.placed(boxes, dx, dy, j),
        ensures
            forall|k: int, j: int|
                0 <= k < self.order@.len() && 0 <= j < boxes.len() && !self.scheduled(j)
                    ==> !rects_intersect(
                    #[trigger] placed[self.order@[k] as int],
                    #[trigger] placed[j],
                ),
    {
        assert forall|k: int, j: int|
            0 <= k < self.order@.len() && 0 <= j < boxes.len() && !self.scheduled(
                j,
            ) implies !rects_intersect(
            #[trigger] placed[self.order@[k] as int],
            #[trigger] placed[j],
        ) by {
            let m = self.order@[k] as int;
            assert(placed[m] == self.placed(boxes, dx, dy, m));
            assert(placed[j] == self.placed(boxes, dx, dy, j));
            if rects_intersect(placed[m], placed[j]) {
                assert(pushes(boxes, dx, dy, self.order@[k] as int, j));
            }
        }
    }
}

/// Runs the cascade from the boxes that `worklist` holds and returns the
/// boxes after it, or `None` where the move is rejected.
///
/// Before the boxes are handed out they are checked once more: a scheduled
/// box that overlapped a box which is not scheduled would make the move
/// infeasible. The worklist has run to its end by then, so the check finds
/// nothing.
fn run_cascade(
    boxes: &Vec<Box>,
    worklist: Worklist,
    dx: i64,
    dy: i64,
    reject_negative: bool,
) -> (r: Option<Vec<Box>>)
    requires
        worklist.wf(box_views(boxes@)),
        is_delta(dx as int),
        is_delta(dy as int),
    ensures
        cascade_by_id(
            box_views(boxes@),
            indices(worklist.order@),
            dx as int,
            dy as int,
            reject_negative,
        ) == (match r {
            Some(v) => box_views(v@),
            None => box_views(boxes@),
        }),
{
    let ghost views = box_views(boxes@);
    let mut worklist = worklist;
    worklist.propagate(boxes, dx, dy);
    let ghost order = indices(worklist.order@);
    match worklist.materialize(boxes, dx, dy, reject_negative) {
        Some(placed) => {
            let ghost after = box_views(placed@);
            proof {
                assert forall|j: int| 0 <= j < views.len() implies #[trigger] after[j]
                    == worklist.placed(views, dx as int, dy as int, j) by {
                    assert(after[j] == placed@[j]@);
                }
                worklist.lemma_nothing_left_to_push(views, dx as int, dy as int, after);
                assert forall|k: int, j: int|
                    0 <= k < worklist.order@.len() && 0 <= j < placed@.len() && !worklist.scheduled(
                        j,
                    ) implies !rects_intersect(
                    (#[trigger] placed@[worklist.order@[k] as int])@,
                    (#[trigger] placed@[j])@,
                ) by {
                    assert(after[worklist.order@[k] as int] == placed@[worklist.order@[k] as int]@);
                    assert(after[j] == placed@[j]@);
                }
            }
            if !worklist.settled(&placed) {
                return None;
            }
            proof {
                assert(after =~= places_by_id(views, order, dx as int, dy as int)) by {
                    assert forall|j: int| 0 <= j < views.len() implies after[j] == places_by_id(
                        views,
                        order,
                        dx as int,
                        dy as int,
                    )[j] by {
                        worklist.lemma_placed_by_id(views, dx as int, dy as int, j);
                    }
                }
                assert(places_allowed(views, order, dx as int, dy as int, reject_negative)) by {
                    assert forall|j: int|
                        0 <= j < views.len() && id_scheduled(
                            views,
                            order,
                            (#[trigger] views[j]).id,
                        ) implies position_allowed(
                        places_by_id(views, order, dx as int, dy as int)[j],
                        reject_negative,
                    ) by {
                        worklist.lemma_placed_by_id(views, dx as int, dy as int, j);
                        assert(position_allowed(placed@[j]@, reject_negative));
                        assert(after[j] == placed@[j]@);
                    }
                }
            }
            Some(placed)
        },
        None => {
            proof {
                let j = choose|j: int|
                    0 <= j < views.len() && #[trigger] worklist.scheduled(j) && !position_allowed(
                        worklist.placed(views, dx as int, dy as int, j),
                        reject_negative,
                    );
                worklist.lemma_placed_by_id(views, dx as int, dy as int, j);
                assert(!places_allowed(views, order, dx as int, dy as int, reject_negative));
            }
            None
        },
    }
}

/// The boxes after the move that starts with box `f`, by `(dx, dy)`, or
/// `None` where the move is rejected.
pub(crate) fn cascade_from_box(
    boxes: &Vec<Box>,
    f: usize,
    dx: i64,
    dy: i64,
    reject_negative: bool,
) -> (r: Option<Vec<Box>>)
    requires
        f < boxes@.len(),
        is_delta(dx as int),
        is_delta(dy as int),
    ensures
        cascade_by_id(box_views(boxes@), seq![f as int], dx as int, dy as int, reject_negative)
            == (match r {
            Some(v) => box_views(v@),
            None => box_views(boxes@),
        }),
{
    let mut worklist = Worklist::new(boxes.len(), Ghost(box_views(boxes@)));
    worklist.schedule(boxes, f);
    assert(indices(worklist.order@) =~= seq![f as int]);
    run_cascade(boxes, worklist, dx, dy, reject_negative)
}

/// The boxes after the move that starts with the selected boxes, by
/// `(dx, dy)`, or `None` where the move is rejected.
pub(crate) fn cascade_from_selection(
    boxes: &Vec<Box>,
    dx: i64,
    dy: i64,
    reject_negative: bool,
) -> (r: Option<Vec<Box>>)
    requires
        is_delta(dx as int),
        is_delta(dy as int),
    ensures
        cascade_by_id(
            box_views(boxes@),
            selected_in_order(box_views(boxes@), boxes@.len() as int),
            dx as int,
            dy as int,
            reject_negative,
        ) == (match r {
            Some(v) => box_views(v@),
            None => box_views(boxes@),
        }),
{
    let ghost views = box_views(boxes@);
    let n = boxes.len();
    let mut worklist = Worklist::new(n, Ghost(views));
    assert(indices(worklist.order@) =~= Seq::<int>::empty());
    let mut j: usize = 0;
    while j < n
        invariant
            n == boxes@.len(),
            views == box_views(boxes@),
            j <= n,
            worklist.wf(views),
            indices(worklist.order@) == selected_in_order(views, j as int),
        decreases n - j,
    {
        assert(views[j as int] == boxes@[j as int]@);
        proof {
            worklist.lemma_stand_in_by_id(views, j as int);
        }
        if boxes[j].selected && worklist.stand_in[j].is_none() {
            match find_box(boxes, &boxes[j].id) {
                Some(f) => {
                    let ghost prev = worklist;
                    assert(prev.stand_in@[f as int] == prev.stand_in@[j as int]);
                    worklist.schedule(boxes, f);
                    assert(indices(worklist.order@) =~= indices(prev.order@).push(f as int));
                },
                None => {},
            }
        }
        j += 1;
    }
    if worklist.order.len() == 0 {
        assert(places_by_id(views, indices(worklist.order@), dx as int, dy as int) =~= views);
        return None;
    }
    run_cascade(boxes, worklist, dx, dy, reject_negative)
}

} // verus!
