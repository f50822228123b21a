//! Axis-aligned rectangles: the overlap test and the bounding box.

use vstd::prelude::*;
use crate::model::{box_views, Box, BoxView};

verus! {

/// Two rectangles intersect when they overlap on both axes. The intervals are
/// open: rectangles that only touch at an edge do not intersect.
pub open spec fn rects_intersect(a: BoxView, b: BoxView) -> bool {
    &&& a.x < b.x + b.width
    &&& b.x < a.x + a.width
    &&& a.y < b.y + b.height
    &&& b.y < a.y + a.height
}

/// Whether two rectangles overlap does not depend on which of them is named
/// first.
pub proof fn lemma_intersection_is_symmetric(a: BoxView, b: BoxView)
    ensures
        rects_intersect(a, b) == rects_intersect(b, a),
{
}

/// Rectangles of which one ends where the other begins do not intersect.
pub proof fn lemma_touching_rects_do_not_intersect(a: BoxView, b: BoxView)
    requires
        a.x + a.width == b.x || b.x + b.width == a.x || a.y + a.height == b.y || b.y + b.height
            == a.y,
    ensures
        !rects_intersect(a, b),
{
}

impl BoxView {
    /// The same box, moved by `(dx, dy)`.
    pub open spec fn shifted(self, dx: int, dy: int) -> BoxView {
        BoxView { x: self.x + dx, y: self.y + dy, ..self }
    }
}

/// Tests two boxes for overlap. The sums are taken in 64 bits, so the answer
/// is exact for every pair of boxes.
pub fn do_boxes_intersect(a: &Box, b: &Box) -> (r: bool)
    ensures
        r == rects_intersect(a@, b@),
{
    let ax: i64 = a.x as i64;
    let ay: i64 = a.y as i64;
    let bx: i64 = b.x as i64;
    let by: i64 = b.y as i64;
    ax < bx + b.width as i64 && bx < ax + a.width as i64 && ay < by + b.height as i64 && by < ay
        + a.height as i64
}

/// A rectangle in 64-bit coordinates, wide enough for the extent of any set
/// of boxes.
#[derive(Debug, Clone, Copy, PartialEq, Eq, Structural)]
pub struct BoundingBox {
    pub x: i64,
    pub y: i64,
    pub width: i64,
    pub height: i64,
}

/// Whether `(x, y, width, height)` is the smallest rectangle that covers
/// every box of `boxes`: it starts at the least `x` and the least `y`, and
/// ends at the greatest `x + width` and the greatest `y + height`.
pub open spec fn is_bounding_box(
    boxes: Seq<BoxView>,
    x: int,
    y: int,
    width: int,
    height: int,
) -> bool {
    &&& forall|i: int| 0 <= i < boxes.len() ==> x <= (#[trigger] boxes[i]).x
    &&& exists|i: int| 0 <= i < boxes.len() && x == (#[trigger] boxes[i]).x
    &&& forall|i: int| 0 <= i < boxes.len() ==> y <= (#[trigger] boxes[i]).y
    &&& exists|i: int| 0 <= i < boxes.len() && y == (#[trigger] boxes[i]).y
    &&& forall|i: int|
        0 <= i < boxes.len() ==> (#[trigger] boxes[i]).x + boxes[i].width <= x + width
    &&& exists|i: int|
        0 <= i < boxes.len() && (#[trigger] boxes[i]).x + boxes[i].width == x + width
    &&& forall|i: int|
        0 <= i < boxes.len() ==> (#[trigger] boxes[i]).y + boxes[i].height <= y + height
    &&& exists|i: int|
        0 <= i < boxes.len() && (#[trigger] boxes[i]).y + boxes[i].height == y + height
}

/// A list of boxes has at most one bounding box.
pub proof fn lemma_bounding_box_is_unique(
    boxes: Seq<BoxView>,
    x1: int,
    y1: int,
    width1: int,
    height1: int,
    x2: int,
    y2: int,
    width2: int,
    height2: int,
)
    requires
        is_bounding_box(boxes, x1, y1, width1, height1),
        is_bounding_box(boxes, x2, y2, width2, height2),
    ensures
        x1 == x2,
        y1 == y2,
        width1 == width2,
        height1 == height2,
{
}

/// The smallest rectangle that covers every box, or `None` where there is no
/// box.
pub fn bounding_box(boxes: &Vec<Box>) -> (r: Option<BoundingBox>)
    ensures
        r is None <==> boxes@.len() == 0,
        r matches Some(bb) ==> is_bounding_box(
            box_views(boxes@),
            bb.x as int,
            bb.y as int,
            bb.width as int,
            bb.height as int,
        ),
{
    if boxes.len() == 0 {
        return None;
    }
    let ghost views = box_views(boxes@);
    let mut min_x: i64 = boxes[0].x as i64;
    let mut min_y: i64 = boxes[0].y as i64;
    let mut max_x: i64 = boxes[0].x as i64 + boxes[0].width as i64;
    let mut max_y: i64 = boxes[0].y as i64 + boxes[0].height as i64;
    assert(views[0] == boxes[0]@);
    let mut i: usize = 1;
    while i < boxes.len()
        invariant
            1 <= i <= boxes.len(),
            views == box_views(boxes@),
            i32::MIN <= min_x <= i32::MAX,
            i32::MIN <= min_y <= i32::MAX,
            2 * i32::MIN <= max_x <= 2 * i32::MAX,
            2 * i32::MIN <= max_y <= 2 * i32::MAX,
            forall|k: int| 0 <= k < i ==> min_x <= (#[trigger] views[k]).x,
            exists|k: int| 0 <= k < i && min_x == (#[trigger] views[k]).x,
            forall|k: int| 0 <= k < i ==> min_y <= (#[trigger] views[k]).y,
            exists|k: int| 0 <= k < i && min_y == (#[trigger] views[k]).y,
            forall|k: int| 0 <= k < i ==> (#[trigger] views[k]).x + views[k].width <= max_x,
            exists|k: int| 0 <= k < i && (#[trigger] views[k]).x + views[k].width == max_x,
            forall|k: int| 0 <= k < i ==> (#[trigger] views[k]).y + views[k].height <= max_y,
            exists|k: int| 0 <= k < i && (#[trigger] views[k]).y + views[k].height == max_y,
        decreases boxes.len() - i,
    {
        let b = &boxes[i];
        assert(views[i as int] == b@);
        let right: i64 = b.x as i64 + b.width as i64;
        let bottom: i64 = b.y as i64 + b.height as i64;
        if (b.x as i64) < min_x {
            min_x = b.x as i64;
        }
        if (b.y as i64) < min_y {
            min_y = b.y as i64;
        }
        if right > max_x {
            max_x = right;
        }
        if bottom > max_y {
            max_y = bottom;
        }
        i += 1;
    }
    Some(BoundingBox { x: min_x, y: min_y, width: max_x - min_x, height: max_y - min_y })
}

} // verus!
