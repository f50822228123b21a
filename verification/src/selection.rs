//! The selection: one flag on each box.

use vstd::prelude::*;
use crate::model::{
    box_views, find_box, first_box_named, ids_distinct, lemma_same_ids_stay_distinct, BoxView,
};
use crate::store::AppState;

verus! {

/// The values of a sequence of strings.
pub open spec fn string_views(strings: Seq<String>) -> Seq<Seq<char>> {
    strings.map_values(|s: String| s@)
}

/// The boxes after the flag of the first box named `id` has been flipped.
/// Boxes without such a box stay as they are.
pub open spec fn after_toggle_selection(boxes: Seq<BoxView>, id: Seq<char>) -> Seq<BoxView> {
    match first_box_named(boxes, id) {
        Some(i) => boxes.update(i, BoxView { selected: !boxes[i].selected, ..boxes[i] }),
        None => boxes,
    }
}

/// The boxes with no box selected.
pub open spec fn after_clear_selection(boxes: Seq<BoxView>) -> Seq<BoxView> {
    boxes.map_values(|b: BoxView| BoxView { selected: false, ..b })
}

/// The boxes with exactly the boxes selected whose id is one of `ids`.
pub open spec fn after_select_boxes(boxes: Seq<BoxView>, ids: Seq<Seq<char>>) -> Seq<BoxView> {
    boxes.map_values(|b: BoxView| BoxView { selected: ids.contains(b.id), ..b })
}

/// Whether `id` is one of `ids`.
pub fn contains_id(ids: &Vec<String>, id: &String) -> (r: bool)
    ensures
        r == string_views(ids@).contains(id@),
{
    let mut i: usize = 0;
    while i < ids.len()
        invariant
            i <= ids@.len(),
            forall|k: int| 0 <= k < i ==> (#[trigger] string_views(ids@)[k]) != id@,
        decreases ids@.len() - i,
    {
        if ids[i] == *id {
            assert(string_views(ids@)[i as int] == id@);
            return true;
        }
        assert(string_views(ids@)[i as int] != id@);
        i += 1;
    }
    false
}

impl AppState {
    /// Flips the selection flag of the first box named `id`. Where no box has
    /// that name nothing changes.
    pub fn toggle_box_selection(&mut self, id: String)
        ensures
            final(self).canvas_state@.boxes == after_toggle_selection(
                old(self).canvas_state@.boxes,
                id@,
            ),
            final(self).canvas_state@.connections == old(self).canvas_state@.connections,
            final(self).reject_negative_coordinates == old(self).reject_negative_coordinates,
            old(self).canvas_state@.is_valid() ==> final(self).canvas_state@.is_valid(),
    {
        let ghost before = self.canvas_state@.boxes;
        match find_box(&self.canvas_state.boxes, &id) {
            Some(i) => {
                let flipped = !self.canvas_state.boxes[i].selected;
                self.canvas_state.boxes[i].selected = flipped;
                assert(box_views(self.canvas_state.boxes@) =~= after_toggle_selection(before, id@));
            },
            None => {},
        }
        proof {
            if ids_distinct(before) {
                lemma_same_ids_stay_distinct(before, self.canvas_state@.boxes);
            }
        }
    }

    /// Deselects every box.
    pub fn clear_selection(&mut self)
        ensures
            final(self).canvas_state@.boxes == after_clear_selection(
                old(self).canvas_state@.boxes,
            ),
            final(self).canvas_state@.connections == old(self).canvas_state@.connections,
            final(self).reject_negative_coordinates == old(self).reject_negative_coordinates,
            old(self).canvas_state@.is_valid() ==> final(self).canvas_state@.is_valid(),
    {
        let ghost before = box_views(self.canvas_state.boxes@);
        let n = self.canvas_state.boxes.len();
        let mut i: usize = 0;
        while i < n
            invariant
                i <= n,
                n == self.canvas_state.boxes@.len(),
                n == before.len(),
                self.canvas_state.connections == old(self).canvas_state.connections,
                self.reject_negative_coordinates == old(self).reject_negative_coordinates,
                forall|k: int|
                    0 <= k < i ==> (#[trigger] self.canvas_state.boxes@[k])@ == (BoxView {
                        selected: false,
                        ..before[k]
                    }),
                forall|k: int|
                    i <= k < n ==> (#[trigger] self.canvas_state.boxes@[k])@ == before[k],
            decreases n - i,
        {
            self.canvas_state.boxes[i].selected = false;
            i += 1;
        }
        assert(box_views(self.canvas_state.boxes@) =~= after_clear_selection(before));
        proof {
            if ids_distinct(before) {
                lemma_same_ids_stay_distinct(before, self.canvas_state@.boxes);
            }
        }
    }

    /// Selects exactly the boxes whose id is one of `ids`. The selection
    /// that was there before is replaced, not added to.
    pub fn select_boxes(&mut self, ids: Vec<String>)
        ensures
            final(self).canvas_state@.boxes == after_select_boxes(
                old(self).canvas_state@.boxes,
                string_views(ids@),
            ),
            final(self).canvas_state@.connections == old(self).canvas_state@.connections,
            final(self).reject_negative_coordinates == old(self).reject_negative_coordinates,
            old(self).canvas_state@.is_valid() ==> final(self).canvas_state@.is_valid(),
    {
        let ghost before = box_views(self.canvas_state.boxes@);
        let n = self.canvas_state.boxes.len();
        let mut i: usize = 0;
        while i < n
            invariant
                i <= n,
                n == self.canvas_state.boxes@.len(),
                n == before.len(),
                self.canvas_state.connections == old(self).canvas_state.connections,
                self.reject_negative_coordinates == old(self).reject_negative_coordinates,
                forall|k: int|
                    0 <= k < i ==> (#[trigger] self.canvas_state.boxes@[k])@ == (BoxView {
                        selected: string_views(ids@).contains(before[k].id),
                        ..before[k]
                    }),
                forall|k: int|
                    i <= k < n ==> (#[trigger] self.canvas_state.boxes@[k])@ == before[k],
            decreases n - i,
        {
            let chosen = contains_id(&ids, &self.canvas_state.boxes[i].id);
            self.canvas_state.boxes[i].selected = chosen;
            i += 1;
        }
        assert(box_views(self.canvas_state.boxes@) =~= after_select_boxes(
            before,
            string_views(ids@),
        ));
        proof {
            if ids_distinct(before) {
                lemma_same_ids_stay_distinct(before, self.canvas_state@.boxes);
            }
        }
    }
}

} // verus!
