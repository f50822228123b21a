//! The state engine of a node-and-connection diagramming canvas: rectangular
//! boxes joined by typed connections, changed through atomic commands.

pub mod model;
pub mod geometry;
pub mod store;
pub mod selection;
pub mod connections;
pub mod cascade;
pub mod schedule;
pub mod worklist;
pub mod builder;
pub mod files;
pub mod greeting;

pub use crate::geometry::{do_boxes_intersect, BoundingBox};
pub use crate::model::{Box, CanvasState, Connection, ConnectionType};
pub use crate::store::AppState;
pub use crate::builder::AppBuilder;
pub use crate::files::{sort_nodes, FileNode};
pub use crate::greeting::greet;
