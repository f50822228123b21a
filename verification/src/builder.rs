//! Putting the application state together.

use vstd::prelude::*;
use crate::model::{CanvasState, CanvasView};
use crate::store::AppState;

verus! {

/// Collects what an [`AppState`] starts with: a canvas, empty unless one is
/// given, and the boundary policy, off unless it is switched on.
#[derive(Debug)]
pub struct AppBuilder {
    canvas_state: CanvasState,
    reject_negative_coordinates: bool,
}

impl AppBuilder {
    /// The canvas that the state will start with.
    pub closed spec fn canvas(self) -> CanvasView {
        self.canvas_state@
    }

    /// Whether the state will reject moves to negative coordinates.
    pub closed spec fn rejects_negative(self) -> bool {
        self.reject_negative_coordinates
    }

    /// A builder with an empty canvas and the boundary policy off.
    pub fn new() -> (r: Self)
        ensures
            r.canvas().boxes.len() == 0,
            r.canvas().connections.len() == 0,
            !r.rejects_negative(),
    {
        AppBuilder { canvas_state: CanvasState::default(), reject_negative_coordinates: false }
    }

    /// Replaces the canvas that the state will start with.
    pub fn with_canvas_state(self, state: CanvasState) -> (r: Self)
        ensures
            r.canvas() == state@,
            r.rejects_negative() == self.rejects_negative(),
    {
        let mut builder = self;
        builder.canvas_state = state;
        builder
    }

    /// Sets the boundary policy: whether a move that would put a box at a
    /// negative coordinate is rejected.
    pub fn with_reject_negative_coordinates(self, reject: bool) -> (r: Self)
        ensures
            r.canvas() == self.canvas(),
            r.rejects_negative() == reject,
    {
        let mut builder = self;
        builder.reject_negative_coordinates = reject;
        builder
    }

    /// The application state that was asked for.
    pub fn build(self) -> (r: AppState)
        ensures
            r.canvas_state@ == self.canvas(),
            r.reject_negative_coordinates == self.rejects_negative(),
    {
        AppState {
            canvas_state: self.canvas_state,
            reject_negative_coordinates: self.reject_negative_coordinates,
        }
    }
}

impl Default for AppBuilder {
    fn default() -> (r: Self)
        ensures
            r.canvas().boxes.len() == 0,
            r.canvas().connections.len() == 0,
            !r.rejects_negative(),
    {
        AppBuilder::new()
    }
}

} // verus!
