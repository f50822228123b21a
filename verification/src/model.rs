//! The canvas data: boxes, connections and the aggregate of both, each with
//! the mathematical value that the contracts of this crate speak of.

use vstd::prelude::*;

verus! {

/// How a connection between two boxes is directed.
///
/// `NoDirection` is the explicit "no direction" state of an existing
/// connection. `from` and `to` of a connection carry a meaning only while its
/// type is `Forward`.
#[derive(Debug, Clone, Copy, PartialEq, Eq, Structural)]
pub enum ConnectionType {
    NoDirection,
    Forward,
    Bidirectional,
}

impl ConnectionType {
    /// The type that follows `self` in the cycle
    /// `NoDirection`, `Forward`, `Bidirectional`, `NoDirection`.
    pub open spec fn successor(self) -> ConnectionType {
        match self {
            ConnectionType::NoDirection => ConnectionType::Forward,
            ConnectionType::Forward => ConnectionType::Bidirectional,
            ConnectionType::Bidirectional => ConnectionType::NoDirection,
        }
    }

    /// Advances the type by one step of its cycle.
    pub fn next(self) -> (r: ConnectionType)
        ensures
            r == self.successor(),
    {
        match self {
            ConnectionType::NoDirection => ConnectionType::Forward,
            ConnectionType::Forward => ConnectionType::Bidirectional,
            ConnectionType::Bidirectional => ConnectionType::NoDirection,
        }
    }
}

/// The mathematical value of a [`Box`]: its strings as sequences of
/// characters, its coordinates as unbounded integers.
pub struct BoxView {
    pub id: Seq<char>,
    pub x: int,
    pub y: int,
    pub width: int,
    pub height: int,
    pub text: Seq<char>,
    pub selected: bool,
    pub color: Option<Seq<char>>,
}

/// A rectangle on the canvas. `x` and `y` are its top-left corner.
#[derive(Debug)]
pub struct Box {
    pub id: String,
    pub x: i32,
    pub y: i32,
    pub width: i32,
    pub height: i32,
    pub text: String,
    pub selected: bool,
    pub color: Option<String>,
}

/// The mathematical value of an optional string.
pub open spec fn opt_string_view(s: Option<String>) -> Option<Seq<char>> {
    match s {
        Some(c) => Some(c@),
        None => None,
    }
}

impl View for Box {
    type V = BoxView;

    open spec fn view(&self) -> BoxView {
        BoxView {
            id: self.id@,
            x: self.x as int,
            y: self.y as int,
            width: self.width as int,
            height: self.height as int,
            text: self.text@,
            selected: self.selected,
            color: opt_string_view(self.color),
        }
    }
}

impl Clone for Box {
    fn clone(&self) -> (r: Self)
        ensures
            r@ == self@,
    {
        Box {
            id: self.id.clone(),
            x: self.x,
            y: self.y,
            width: self.width,
            height: self.height,
            text: self.text.clone(),
            selected: self.selected,
            color: match &self.color {
                Some(c) => Some(c.clone()),
                None => None,
            },
        }
    }
}

/// The mathematical value of a [`Connection`].
pub struct ConnectionView {
    pub from: Seq<char>,
    pub to: Seq<char>,
    pub kind: ConnectionType,
}

impl ConnectionView {
    /// Whether this connection joins `a` and `b`, in either order.
    pub open spec fn joins(self, a: Seq<char>, b: Seq<char>) -> bool {
        (self.from == a && self.to == b) || (self.from == b && self.to == a)
    }
}

/// An edge between two boxes, named by their ids.
#[derive(Debug)]
pub struct Connection {
    pub from: String,
    pub to: String,
    pub kind: ConnectionType,
}

impl View for Connection {
    type V = ConnectionView;

    open spec fn view(&self) -> ConnectionView {
        ConnectionView { from: self.from@, to: self.to@, kind: self.kind }
    }
}

impl Clone for Connection {
    fn clone(&self) -> (r: Self)
        ensures
            r@ == self@,
    {
        Connection { from: self.from.clone(), to: self.to.clone(), kind: self.kind }
    }
}

impl Connection {
    /// Whether this connection joins `a` and `b`, in either order.
    pub fn joins(&self, a: &String, b: &String) -> (r: bool)
        ensures
            r == self@.joins(a@, b@),
    {
        (self.from == *a && self.to == *b) || (self.from == *b && self.to == *a)
    }
}

/// The mathematical value of a [`CanvasState`].
pub struct CanvasView {
    pub boxes: Seq<BoxView>,
    pub connections: Seq<ConnectionView>,
}

/// The whole canvas: its boxes and its connections, each in the order in
/// which they were added.
#[derive(Debug)]
pub struct CanvasState {
    pub boxes: Vec<Box>,
    pub connections: Vec<Connection>,
}

/// The values of a sequence of boxes.
pub open spec fn box_views(boxes: Seq<Box>) -> Seq<BoxView> {
    boxes.map_values(|b: Box| b@)
}

/// The values of a sequence of connections.
pub open spec fn connection_views(connections: Seq<Connection>) -> Seq<ConnectionView> {
    connections.map_values(|c: Connection| c@)
}

impl View for CanvasState {
    type V = CanvasView;

    open spec fn view(&self) -> CanvasView {
        CanvasView {
            boxes: box_views(self.boxes@),
            connections: connection_views(self.connections@),
        }
    }
}

/// Copies a list of boxes.
pub fn clone_boxes(boxes: &Vec<Box>) -> (r: Vec<Box>)
    ensures
        box_views(r@) == box_views(boxes@),
{
    let mut out: Vec<Box> = Vec::new();
    let mut i: usize = 0;
    while i < boxes.len()
        invariant
            i <= boxes.len(),
            out.len() == i,
            forall|k: int| 0 <= k < i ==> out[k]@ == boxes[k]@,
        decreases boxes.len() - i,
    {
        out.push(boxes[i].clone());
        i += 1;
    }
    assert(box_views(out@) =~= box_views(boxes@));
    out
}

/// Copies a list of connections.
pub fn clone_connections(connections: &Vec<Connection>) -> (r: Vec<Connection>)
    ensures
        connection_views(r@) == connection_views(connections@),
{
    let mut out: Vec<Connection> = Vec::new();
    let mut i: usize = 0;
    while i < connections.len()
        invariant
            i <= connections.len(),
            out.len() == i,
            forall|k: int| 0 <= k < i ==> out[k]@ == connections[k]@,
        decreases connections.len() - i,
    {
        out.push(connections[i].clone());
        i += 1;
    }
    assert(connection_views(out@) =~= connection_views(connections@));
    out
}

impl Clone for CanvasState {
    fn clone(&self) -> (r: Self)
        ensures
            r@ == self@,
    {
        CanvasState {
            boxes: clone_boxes(&self.boxes),
            connections: clone_connections(&self.connections),
        }
    }
}

impl Default for CanvasState {
    /// The empty canvas.
    fn default() -> (r: Self)
        ensures
            r@.boxes.len() == 0,
            r@.connections.len() == 0,
    {
        CanvasState { boxes: Vec::new(), connections: Vec::new() }
    }
}

/// Whether no two boxes share an id.
pub open spec fn ids_distinct(boxes: Seq<BoxView>) -> bool {
    forall|i: int, j: int|
        0 <= i < boxes.len() && 0 <= j < boxes.len() && i != j ==> (#[trigger] boxes[i]).id != (
        #[trigger] boxes[j]).id
}

/// Whether two lists of boxes name the same boxes at the same places of the
/// list.
pub open spec fn same_ids(a: Seq<BoxView>, b: Seq<BoxView>) -> bool {
    &&& a.len() == b.len()
    &&& forall|i: int| 0 <= i < a.len() ==> (#[trigger] a[i]).id == b[i].id
}

/// Boxes that keep their ids keep them distinct.
pub proof fn lemma_same_ids_stay_distinct(a: Seq<BoxView>, b: Seq<BoxView>)
    requires
        same_ids(a, b),
        ids_distinct(a),
    ensures
        ids_distinct(b),
{
    assert forall|i: int, j: int| 0 <= i < b.len() && 0 <= j < b.len() && i != j implies (
    #[trigger] b[i]).id != (#[trigger] b[j]).id by {
        assert(a[i].id == b[i].id && a[j].id == b[j].id);
    }
}

/// Whether at most one connection joins any two boxes, whichever way round
/// the two are named.
pub open spec fn pairs_unique(connections: Seq<ConnectionView>) -> bool {
    forall|i: int, j: int|
        0 <= i < connections.len() && 0 <= j < connections.len() && i != j ==> !(
        #[trigger] connections[i]).joins((#[trigger] connections[j]).from, connections[j].to)
}

impl CanvasView {
    /// Whether the canvas is as its data model has it: no two boxes share an
    /// id, and at most one connection joins any two boxes.
    pub open spec fn is_valid(self) -> bool {
        ids_distinct(self.boxes) && pairs_unique(self.connections)
    }
}

/// A box with a new id keeps the ids distinct.
pub proof fn lemma_new_id_keeps_ids_distinct(boxes: Seq<BoxView>, added: BoxView)
    requires
        ids_distinct(boxes),
        forall|i: int| 0 <= i < boxes.len() ==> (#[trigger] boxes[i]).id != added.id,
    ensures
        ids_distinct(boxes.push(added)),
{
    let after = boxes.push(added);
    assert forall|i: int, j: int| 0 <= i < after.len() && 0 <= j < after.len() && i != j implies (
    #[trigger] after[i]).id != (#[trigger] after[j]).id by {
        if i < boxes.len() && j < boxes.len() {
            assert(boxes[i].id != boxes[j].id);
        } else if i < boxes.len() {
            assert(boxes[i].id != added.id);
        } else {
            assert(boxes[j].id != added.id);
        }
    }
}

/// What is left of a sequence after a filter stands in it in the same
/// order: each place of what is left has a place in the sequence, and a later
/// place a later one.
pub proof fn lemma_filter_keeps_order<T>(s: Seq<T>, pred: spec_fn(T) -> bool) -> (from: Seq<int>)
    ensures
        from.len() == s.filter(pred).len(),
        forall|i: int|
            0 <= i < from.len() ==> 0 <= #[trigger] from[i] < s.len() && s.filter(pred)[i]
                == s[from[i]],
        forall|i: int, j: int| 0 <= i < j < from.len() ==> #[trigger] from[i] < #[trigger] from[j],
    decreases s.len(),
{
    reveal(Seq::filter);
    if s.len() == 0 {
        Seq::empty()
    } else {
        let front = lemma_filter_keeps_order(s.drop_last(), pred);
        if pred(s.last()) {
            front.push(s.len() - 1)
        } else {
            front
        }
    }
}

/// Boxes that are left after a filter keep their ids distinct.
pub proof fn lemma_filter_keeps_ids_distinct(boxes: Seq<BoxView>, pred: spec_fn(BoxView) -> bool)
    requires
        ids_distinct(boxes),
    ensures
        ids_distinct(boxes.filter(pred)),
{
    let from = lemma_filter_keeps_order(boxes, pred);
    let left = boxes.filter(pred);
    assert forall|i: int, j: int| 0 <= i < left.len() && 0 <= j < left.len() && i != j implies (
    #[trigger] left[i]).id != (#[trigger] left[j]).id by {
        if i < j {
            assert(from[i] < from[j]);
        } else {
            assert(from[j] < from[i]);
        }
        assert(boxes[from[i]].id != boxes[from[j]].id);
    }
}

/// Connections that are left after a filter stay unique.
pub proof fn lemma_filter_keeps_pairs_unique(
    connections: Seq<ConnectionView>,
    pred: spec_fn(ConnectionView) -> bool,
)
    requires
        pairs_unique(connections),
    ensures
        pairs_unique(connections.filter(pred)),
{
    let from = lemma_filter_keeps_order(connections, pred);
    let left = connections.filter(pred);
    assert forall|i: int, j: int| 0 <= i < left.len() && 0 <= j < left.len() && i != j implies !(
    #[trigger] left[i]).joins((#[trigger] left[j]).from, left[j].to) by {
        if i < j {
            assert(from[i] < from[j]);
        } else {
            assert(from[j] < from[i]);
        }
        assert(!connections[from[i]].joins(connections[from[j]].from, connections[from[j]].to));
    }
}

/// The position of the first box named `id`, if there is one.
pub open spec fn first_box_named(boxes: Seq<BoxView>, id: Seq<char>) -> Option<int> {
    if exists|i: int| 0 <= i < boxes.len() && boxes[i].id == id {
        Some(choose|i: int| is_first_box_named(boxes, id, i))
    } else {
        None
    }
}

/// Whether `i` is the position of the first box named `id`.
pub open spec fn is_first_box_named(boxes: Seq<BoxView>, id: Seq<char>, i: int) -> bool {
    &&& 0 <= i < boxes.len()
    &&& boxes[i].id == id
    &&& forall|k: int| 0 <= k < i ==> boxes[k].id != id
}

/// The first box named `id` is the only one that no box of that name
/// precedes.
pub proof fn lemma_first_box_named(boxes: Seq<BoxView>, id: Seq<char>, i: int)
    requires
        is_first_box_named(boxes, id, i),
    ensures
        first_box_named(boxes, id) == Some(i),
{
    let c = choose|c: int| is_first_box_named(boxes, id, c);
    assert(c == i) by {
        if c < i {
            assert(boxes[c].id != id);
        } else if i < c {
            assert(boxes[i].id != id);
        }
    }
}

/// Where a box is named `id`, one of them is the first.
pub proof fn lemma_first_box_named_exists(boxes: Seq<BoxView>, id: Seq<char>, k: int)
    requires
        0 <= k < boxes.len(),
        boxes[k].id == id,
    ensures
        first_box_named(boxes, id) matches Some(i) && is_first_box_named(boxes, id, i) && i <= k,
    decreases k,
{
    if exists|j: int| 0 <= j < k && boxes[j].id == id {
        let j = choose|j: int| 0 <= j < k && boxes[j].id == id;
        lemma_first_box_named_exists(boxes, id, j);
    } else {
        assert(is_first_box_named(boxes, id, k));
        lemma_first_box_named(boxes, id, k);
    }
}

/// What [`first_box_named`] gives is the first box of that name, and it
/// gives nothing only where no box has that name.
pub proof fn lemma_first_box_named_is_first(boxes: Seq<BoxView>, id: Seq<char>)
    ensures
        match first_box_named(boxes, id) {
            Some(i) => is_first_box_named(boxes, id, i),
            None => forall|k: int| 0 <= k < boxes.len() ==> (#[trigger] boxes[k]).id != id,
        },
{
    if exists|k: int| 0 <= k < boxes.len() && boxes[k].id == id {
        let k = choose|k: int| 0 <= k < boxes.len() && boxes[k].id == id;
        lemma_first_box_named_exists(boxes, id, k);
    }
}

/// Finds the first box named `id`.
pub fn find_box(boxes: &Vec<Box>, id: &String) -> (r: Option<usize>)
    ensures
        match r {
            Some(i) => is_first_box_named(box_views(boxes@), id@, i as int),
            None => forall|k: int|
                0 <= k < boxes@.len() ==> (#[trigger] box_views(boxes@)[k]).id != id@,
        },
        first_box_named(box_views(boxes@), id@) == match r {
            Some(i) => Some(i as int),
            None => None,
        },
{
    let mut i: usize = 0;
    while i < boxes.len()
        invariant
            i <= boxes.len(),
            forall|k: int| 0 <= k < i ==> (#[trigger] box_views(boxes@)[k]).id != id@,
        decreases boxes.len() - i,
    {
        if boxes[i].id == *id {
            proof {
                assert(box_views(boxes@)[i as int].id == id@);
                lemma_first_box_named(box_views(boxes@), id@, i as int);
            }
            return Some(i);
        }
        assert(box_views(boxes@)[i as int].id != id@);
        i += 1;
    }
    None
}

} // verus!
