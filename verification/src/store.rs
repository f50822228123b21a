//! The canvas store: the one canvas of the application, and the commands
//! that read it, replace it and edit its boxes.

use vstd::prelude::*;
use crate::geometry::{bounding_box, is_bounding_box, BoundingBox};
use crate::model::{
    box_views, connection_views, find_box, first_box_named, ids_distinct,
    lemma_filter_keeps_ids_distinct, lemma_filter_keeps_pairs_unique,
    lemma_first_box_named_is_first, lemma_new_id_keeps_ids_distinct, lemma_same_ids_stay_distinct,
    Box, BoxView, CanvasState, CanvasView, Connection, ConnectionView,
};

verus! {

/// The state of the application: the canvas, and the boundary policy under
/// which boxes are moved.
///
/// Every command is a method that runs to its end on the one state it is
/// given. A caller that shares the state between threads keeps it behind one
/// lock and holds the lock for the whole call.
#[derive(Debug)]
pub struct AppState {
    pub canvas_state: CanvasState,
    /// Whether a move that would put a box at a negative coordinate is
    /// rejected.
    pub reject_negative_coordinates: bool,
}

/// The boxes after the text and the size of the first box named `id` have
/// been replaced. Boxes without such a box stay as they are.
pub open spec fn after_update_box_text(
    boxes: Seq<BoxView>,
    id: Seq<char>,
    text: Seq<char>,
    width: int,
    height: int,
) -> Seq<BoxView> {
    match first_box_named(boxes, id) {
        Some(i) => boxes.update(i, BoxView { text, width, height, ..boxes[i] }),
        None => boxes,
    }
}

/// The canvas after every box named `id` has been deleted, and with it every
/// connection that starts or ends at `id`.
pub open spec fn after_delete_box(canvas: CanvasView, id: Seq<char>) -> CanvasView {
    CanvasView {
        boxes: canvas.boxes.filter(|b: BoxView| b.id != id),
        connections: canvas.connections.filter(|c: ConnectionView| c.from != id && c.to != id),
    }
}

impl AppState {
    /// The smallest rectangle that covers every box of the canvas, or `None`
    /// where the canvas has no box.
    pub fn get_bounding_box(&self) -> (r: Option<BoundingBox>)
        ensures
            r is None <==> self.canvas_state@.boxes.len() == 0,
            r matches Some(bb) ==> is_bounding_box(
                self.canvas_state@.boxes,
                bb.x as int,
                bb.y as int,
                bb.width as int,
                bb.height as int,
            ),
    {
        bounding_box(&self.canvas_state.boxes)
    }

    /// A copy of the canvas.
    pub fn get_full_state(&self) -> (r: CanvasState)
        ensures
            r@ == self.canvas_state@,
    {
        self.canvas_state.clone()
    }

    /// Replaces the whole canvas by `new_state` and returns a copy of it.
    pub fn load_new_state(&mut self, new_state: CanvasState) -> (r: CanvasState)
        ensures
            final(self).canvas_state@ == new_state@,
            final(self).reject_negative_coordinates == old(self).reject_negative_coordinates,
            r@ == new_state@,
    {
        self.canvas_state = new_state;
        self.canvas_state.clone()
    }

    /// Adds a box at the end of the list of boxes.
    pub fn add_box(
        &mut self,
        id: String,
        x: i32,
        y: i32,
        width: i32,
        height: i32,
        text: String,
        selected: bool,
        color: Option<String>,
    )
        ensures
            final(self).canvas_state@.boxes == old(self).canvas_state@.boxes.push(
                (Box { id, x, y, width, height, text, selected, color })@,
            ),
            final(self).canvas_state@.connections == old(self).canvas_state@.connections,
            final(self).reject_negative_coordinates == old(self).reject_negative_coordinates,
            old(self).canvas_state@.is_valid() && first_box_named(
                old(self).canvas_state@.boxes,
                id@,
            ) is None ==> final(self).canvas_state@.is_valid(),
    {
        let ghost before = self.canvas_state@.boxes;
        let new_box = Box { id, x, y, width, height, text, selected, color };
        self.canvas_state.boxes.push(new_box);
        proof {
            assert(box_views(self.canvas_state.boxes@) =~= before.push(new_box@));
            if ids_distinct(before) && first_box_named(before, id@) is None {
                lemma_first_box_named_is_first(before, id@);
                lemma_new_id_keeps_ids_distinct(before, new_box@);
            }
        }
    }

    /// Replaces the text and the size of the first box named `id`. Where no
    /// box has that name nothing changes.
    pub fn update_box_text(&mut self, id: String, text: String, width: i32, height: i32)
        ensures
            final(self).canvas_state@.boxes == after_update_box_text(
                old(self).canvas_state@.boxes,
                id@,
                text@,
                width as int,
                height as int,
            ),
            final(self).canvas_state@.connections == old(self).canvas_state@.connections,
            final(self).reject_negative_coordinates == old(self).reject_negative_coordinates,
            old(self).canvas_state@.is_valid() ==> final(self).canvas_state@.is_valid(),
    {
        let ghost before = self.canvas_state@.boxes;
        match find_box(&self.canvas_state.boxes, &id) {
            Some(i) => {
                self.canvas_state.boxes[i].text = text;
                self.canvas_state.boxes[i].width = width;
                self.canvas_state.boxes[i].height = height;
                assert(box_views(self.canvas_state.boxes@) =~= after_update_box_text(
                    before,
                    id@,
                    text@,
                    width as int,
                    height as int,
                ));
            },
            None => {},
        }
        proof {
            if ids_distinct(before) {
                lemma_same_ids_stay_distinct(before, self.canvas_state@.boxes);
            }
        }
    }

    /// Deletes every box named `id` and every connection that starts or ends
    /// at `id`. Where nothing bears that name nothing changes.
    pub fn delete_box(&mut self, id: String)
        ensures
            final(self).canvas_state@ == after_delete_box(old(self).canvas_state@, id@),
            final(self).reject_negative_coordinates == old(self).reject_negative_coordinates,
            old(self).canvas_state@.is_valid() ==> final(self).canvas_state@.is_valid(),
    {
        let ghost keep_box = |b: BoxView| b.id != id@;
        let ghost keep_connection = |c: ConnectionView| c.from != id@ && c.to != id@;
        let ghost old_boxes = box_views(self.canvas_state.boxes@);
        let ghost old_connections = connection_views(self.canvas_state.connections@);

        let mut boxes: Vec<Box> = Vec::new();
        let mut i: usize = 0;
        while i < self.canvas_state.boxes.len()
            invariant
                i <= self.canvas_state.boxes@.len(),
                old_boxes == box_views(self.canvas_state.boxes@),
                keep_box == |b: BoxView| b.id != id@,
                box_views(boxes@) == old_boxes.take(i as int).filter(keep_box),
            decreases self.canvas_state.boxes@.len() - i,
        {
            let ghost kept = box_views(boxes@);
            proof {
                assert(old_boxes.take(i as int + 1) =~= old_boxes.take(i as int).push(
                    old_boxes[i as int],
                ));
                old_boxes.take(i as int).lemma_filter_push(old_boxes[i as int], keep_box);
            }
            if self.canvas_state.boxes[i].id != id {
                boxes.push(self.canvas_state.boxes[i].clone());
                assert(box_views(boxes@) =~= kept.push(old_boxes[i as int]));
            }
            i += 1;
        }
        assert(old_boxes.take(old_boxes.len() as int) =~= old_boxes);

        let mut connections: Vec<Connection> = Vec::new();
        let mut k: usize = 0;
        while k < self.canvas_state.connections.len()
            invariant
                k <= self.canvas_state.connections@.len(),
                old_connections == connection_views(self.canvas_state.connections@),
                keep_connection == |c: ConnectionView| c.from != id@ && c.to != id@,
                connection_views(connections@) == old_connections.take(k as int).filter(
                    keep_connection,
                ),
            decreases self.canvas_state.connections@.len() - k,
        {
            let ghost kept = connection_views(connections@);
            proof {
                assert(old_connections.take(k as int + 1) =~= old_connections.take(k as int).push(
                    old_connections[k as int],
                ));
                old_connections.take(k as int).lemma_filter_push(
                    old_connections[k as int],
                    keep_connection,
                );
            }
            let c = &self.canvas_state.connections[k];
            if c.from != id && c.to != id {
                connections.push(c.clone());
                assert(connection_views(connections@) =~= kept.push(old_connections[k as int]));
            }
            k += 1;
        }
        assert(old_connections.take(old_connections.len() as int) =~= old_connections);

        self.canvas_state.boxes = boxes;
        self.canvas_state.connections = connections;
        proof {
            if old(self).canvas_state@.is_valid() {
                lemma_filter_keeps_ids_distinct(old_boxes, keep_box);
                lemma_filter_keeps_pairs_unique(old_connections, keep_connection);
            }
        }
    }
}

} // verus!
