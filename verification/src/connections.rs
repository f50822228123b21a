//! The connections: at most one between any two boxes, whichever way round
//! the two are named, and the commands that add one and change its type.

use vstd::prelude::*;
use crate::model::{
    connection_views, pairs_unique, CanvasState, Connection, ConnectionType, ConnectionView,
};
use crate::selection::string_views;
use crate::store::AppState;

verus! {

/// Whether some connection joins `a` and `b`.
pub open spec fn connected(connections: Seq<ConnectionView>, a: Seq<char>, b: Seq<char>) -> bool {
    exists|k: int| 0 <= k < connections.len() && (#[trigger] connections[k]).joins(a, b)
}

/// Whether `k` is the position of the first connection that joins `a` and
/// `b`.
pub open spec fn is_first_connection_between(
    connections: Seq<ConnectionView>,
    a: Seq<char>,
    b: Seq<char>,
    k: int,
) -> bool {
    &&& 0 <= k < connections.len()
    &&& connections[k].joins(a, b)
    &&& forall|i: int| 0 <= i < k ==> !(#[trigger] connections[i]).joins(a, b)
}

/// The position of the first connection that joins `a` and `b`, if there is
/// one.
pub open spec fn first_connection_between(
    connections: Seq<ConnectionView>,
    a: Seq<char>,
    b: Seq<char>,
) -> Option<int> {
    if connected(connections, a, b) {
        Some(choose|k: int| is_first_connection_between(connections, a, b, k))
    } else {
        None
    }
}

/// The first connection between two boxes is the only one that no
/// connection between them precedes.
pub proof fn lemma_first_connection_between(
    connections: Seq<ConnectionView>,
    a: Seq<char>,
    b: Seq<char>,
    k: int,
)
    requires
        is_first_connection_between(connections, a, b, k),
    ensures
        first_connection_between(connections, a, b) == Some(k),
{
    assert(connections[k].joins(a, b));
    let c = choose|c: int| is_first_connection_between(connections, a, b, c);
    assert(c == k) by {
        if c < k {
            assert(!connections[c].joins(a, b));
        } else if k < c {
            assert(!connections[k].joins(a, b));
        }
    }
}

/// The connections after the command that connects `from` to `to`: a new
/// `Forward` connection at the end, unless `from` is `to` or the two are
/// connected already.
pub open spec fn after_add_connection(
    connections: Seq<ConnectionView>,
    from: Seq<char>,
    to: Seq<char>,
) -> Seq<ConnectionView> {
    if from == to || connected(connections, from, to) {
        connections
    } else {
        connections.push(ConnectionView { from, to, kind: ConnectionType::Forward })
    }
}

/// The connections after the type of the first connection between `from` and
/// `to` has advanced by one step of its cycle. Its direction stays.
pub open spec fn after_cycle_connection_type(
    connections: Seq<ConnectionView>,
    from: Seq<char>,
    to: Seq<char>,
) -> Seq<ConnectionView> {
    match first_connection_between(connections, from, to) {
        Some(k) => connections.update(
            k,
            ConnectionView { kind: connections[k].kind.successor(), ..connections[k] },
        ),
        None => connections,
    }
}

/// The connections after one step of the directional toggle, for the action
/// "connect `from` to `to`".
///
/// Where the two are not connected, a `Forward` connection from `from` to `to`
/// is added. Else the first connection between them leaves its place, and
/// what takes its place goes to the end: nothing for a `Forward` connection
/// in the direction of the action; the same connection as `Bidirectional` for
/// a `Forward` one against it; a `Forward` connection from `to` to `from` for
/// a `Bidirectional` one; a `Forward` connection from `from` to `to` for one
/// without a direction. Where `from` is `to` nothing changes.
pub open spec fn toggle_step(
    connections: Seq<ConnectionView>,
    from: Seq<char>,
    to: Seq<char>,
) -> Seq<ConnectionView> {
    if from == to {
        connections
    } else {
        match first_connection_between(connections, from, to) {
            None => connections.push(ConnectionView { from, to, kind: ConnectionType::Forward }),
            Some(k) => {
                let found = connections[k];
                let rest = connections.remove(k);
                match found.kind {
                    ConnectionType::Bidirectional => rest.push(
                        ConnectionView { from: to, to: from, kind: ConnectionType::Forward },
                    ),
                    ConnectionType::Forward => if found.from == from {
                        rest
                    } else {
                        rest.push(ConnectionView { kind: ConnectionType::Bidirectional, ..found })
                    },
                    ConnectionType::NoDirection => rest.push(
                        ConnectionView { from, to, kind: ConnectionType::Forward },
                    ),
                }
            },
        }
    }
}

/// The connections after one step of the toggle for each id of `from_ids`,
/// in their order.
pub open spec fn after_toggle_connections(
    connections: Seq<ConnectionView>,
    from_ids: Seq<Seq<char>>,
    to: Seq<char>,
) -> Seq<ConnectionView>
    decreases from_ids.len(),
{
    if from_ids.len() == 0 {
        connections
    } else {
        toggle_step(
            after_toggle_connections(connections, from_ids.drop_last(), to),
            from_ids.last(),
            to,
        )
    }
}

/// Where a connection joins `a` and `b`, one of them is the first.
pub proof fn lemma_first_connection_between_exists(
    connections: Seq<ConnectionView>,
    a: Seq<char>,
    b: Seq<char>,
    k: int,
)
    requires
        0 <= k < connections.len(),
        connections[k].joins(a, b),
    ensures
        first_connection_between(connections, a, b) matches Some(i) && is_first_connection_between(
            connections,
            a,
            b,
            i,
        ) && i <= k,
    decreases k,
{
    if exists|j: int| 0 <= j < k && (#[trigger] connections[j]).joins(a, b) {
        let j = choose|j: int| 0 <= j < k && (#[trigger] connections[j]).joins(a, b);
        lemma_first_connection_between_exists(connections, a, b, j);
    } else {
        assert(is_first_connection_between(connections, a, b, k));
        lemma_first_connection_between(connections, a, b, k);
    }
}

/// What [`first_connection_between`] gives is the first connection between
/// the two, and it gives nothing only where they are not connected.
pub proof fn lemma_first_connection_between_is_first(
    connections: Seq<ConnectionView>,
    a: Seq<char>,
    b: Seq<char>,
)
    ensures
        match first_connection_between(connections, a, b) {
            Some(k) => is_first_connection_between(connections, a, b, k),
            None => !connected(connections, a, b),
        },
{
    if connected(connections, a, b) {
        let k = choose|k: int|
            0 <= k < connections.len() && (#[trigger] connections[k]).joins(a, b);
        lemma_first_connection_between_exists(connections, a, b, k);
    }
}

/// Connecting keeps the connections unique.
pub proof fn lemma_add_connection_keeps_pairs_unique(
    connections: Seq<ConnectionView>,
    from: Seq<char>,
    to: Seq<char>,
)
    requires
        pairs_unique(connections),
    ensures
        pairs_unique(after_add_connection(connections, from, to)),
{
    let after = after_add_connection(connections, from, to);
    if after != connections {
        let last = connections.len() as int;
        assert forall|i: int, j: int|
            0 <= i < after.len() && 0 <= j < after.len() && i != j implies !(#[trigger] after[i]).joins(
            (#[trigger] after[j]).from,
            after[j].to,
        ) by {
            if i < last && j < last {
                assert(!connections[i].joins(connections[j].from, connections[j].to));
            } else if i < last {
                assert(!connections[i].joins(from, to));
            } else {
                assert(!connections[j].joins(from, to));
            }
        }
    }
}

/// Connection dedup: connecting two boxes, and then the same two the other
/// way round, leaves exactly one connection between them. The second command
/// changes nothing.
pub proof fn lemma_connect_both_ways(connections: Seq<ConnectionView>, x: Seq<char>, y: Seq<char>)
    requires
        x != y,
        pairs_unique(connections),
    ensures
        ({
            let once = after_add_connection(connections, x, y);
            let twice = after_add_connection(once, y, x);
            &&& twice == once
            &&& exists|k: int|
                {
                    &&& 0 <= k < twice.len()
                    &&& (#[trigger] twice[k]).joins(x, y)
                    &&& forall|i: int|
                        0 <= i < twice.len() && (#[trigger] twice[i]).joins(x, y) ==> i == k
                }
        }),
{
    let once = after_add_connection(connections, x, y);
    lemma_add_connection_keeps_pairs_unique(connections, x, y);
    let k = if connected(connections, x, y) {
        choose|k: int| 0 <= k < connections.len() && (#[trigger] connections[k]).joins(x, y)
    } else {
        connections.len() as int
    };
    assert(once[k].joins(x, y));
    assert(once[k].joins(y, x));
    assert(connected(once, y, x));
    assert forall|i: int|
        0 <= i < once.len() && (#[trigger] once[i]).joins(x, y) implies i == k by {
        if i != k {
            assert(!once[i].joins(once[k].from, once[k].to));
        }
    }
    let twice = after_add_connection(once, y, x);
    assert(twice == once);
    assert({
        &&& 0 <= k < twice.len()
        &&& (#[trigger] twice[k]).joins(x, y)
        &&& forall|i: int| 0 <= i < twice.len() && (#[trigger] twice[i]).joins(x, y) ==> i == k
    });
}

/// Cycling the type of a connection keeps the connections unique.
pub proof fn lemma_cycle_keeps_pairs_unique(
    connections: Seq<ConnectionView>,
    from: Seq<char>,
    to: Seq<char>,
)
    requires
        pairs_unique(connections),
    ensures
        pairs_unique(after_cycle_connection_type(connections, from, to)),
{
    let after = after_cycle_connection_type(connections, from, to);
    lemma_first_connection_between_is_first(connections, from, to);
    assert forall|i: int, j: int|
        0 <= i < after.len() && 0 <= j < after.len() && i != j implies !(#[trigger] after[i]).joins(
        (#[trigger] after[j]).from,
        after[j].to,
    ) by {
        assert(!connections[i].joins(connections[j].from, connections[j].to));
    }
}

/// Connection cycle: three steps of the cycle bring every connection back
/// to the type it had.
pub proof fn lemma_cycle_three_times(
    connections: Seq<ConnectionView>,
    from: Seq<char>,
    to: Seq<char>,
)
    ensures
        after_cycle_connection_type(
            after_cycle_connection_type(
                after_cycle_connection_type(connections, from, to),
                from,
                to,
            ),
            from,
            to,
        ) == connections,
{
    let once = after_cycle_connection_type(connections, from, to);
    let twice = after_cycle_connection_type(once, from, to);
    let thrice = after_cycle_connection_type(twice, from, to);
    lemma_first_connection_between_is_first(connections, from, to);
    match first_connection_between(connections, from, to) {
        Some(k) => {
            assert(is_first_connection_between(once, from, to, k)) by {
                assert forall|i: int| 0 <= i < k implies !(#[trigger] once[i]).joins(from, to) by {
                    assert(!connections[i].joins(from, to));
                }
            }
            lemma_first_connection_between(once, from, to, k);
            assert(is_first_connection_between(twice, from, to, k)) by {
                assert forall|i: int| 0 <= i < k implies !(#[trigger] twice[i]).joins(from, to) by {
                    assert(!once[i].joins(from, to));
                }
            }
            lemma_first_connection_between(twice, from, to, k);
            assert(thrice =~= connections);
        },
        None => {},
    }
}

/// Connection cycle on a fresh pair: a connection that has just been added
/// is `Forward`; the first step of the cycle makes it `Bidirectional`, the
/// second takes its direction away, and the third makes it `Forward` again.
pub proof fn lemma_cycle_of_a_fresh_connection(
    connections: Seq<ConnectionView>,
    x: Seq<char>,
    y: Seq<char>,
)
    requires
        x != y,
        !connected(connections, x, y),
    ensures
        ({
            let k = connections.len() as int;
            let fresh = after_add_connection(connections, x, y);
            let once = after_cycle_connection_type(fresh, x, y);
            let twice = after_cycle_connection_type(once, x, y);
            let thrice = after_cycle_connection_type(twice, x, y);
            &&& fresh == connections.push(
                ConnectionView { from: x, to: y, kind: ConnectionType::Forward },
            )
            &&& once == fresh.update(
                k,
                ConnectionView { from: x, to: y, kind: ConnectionType::Bidirectional },
            )
            &&& twice == fresh.update(
                k,
                ConnectionView { from: x, to: y, kind: ConnectionType::NoDirection },
            )
            &&& thrice == fresh
        }),
{
    let k = connections.len() as int;
    let fresh = after_add_connection(connections, x, y);
    let once = after_cycle_connection_type(fresh, x, y);
    let twice = after_cycle_connection_type(once, x, y);
    assert(is_first_connection_between(fresh, x, y, k)) by {
        assert forall|i: int| 0 <= i < k implies !(#[trigger] fresh[i]).joins(x, y) by {
            assert(!connections[i].joins(x, y));
        }
    }
    lemma_first_connection_between(fresh, x, y, k);
    assert(is_first_connection_between(once, x, y, k)) by {
        assert forall|i: int| 0 <= i < k implies !(#[trigger] once[i]).joins(x, y) by {
            assert(!connections[i].joins(x, y));
        }
    }
    lemma_first_connection_between(once, x, y, k);
    assert(is_first_connection_between(twice, x, y, k)) by {
        assert forall|i: int| 0 <= i < k implies !(#[trigger] twice[i]).joins(x, y) by {
            assert(!connections[i].joins(x, y));
        }
    }
    lemma_first_connection_between(twice, x, y, k);
    lemma_cycle_three_times(fresh, x, y);
    assert(once =~= fresh.update(
        k,
        ConnectionView { from: x, to: y, kind: ConnectionType::Bidirectional },
    ));
    assert(twice =~= fresh.update(
        k,
        ConnectionView { from: x, to: y, kind: ConnectionType::NoDirection },
    ));
}

/// One step of the toggle keeps the connections unique.
pub proof fn lemma_toggle_step_keeps_pairs_unique(
    connections: Seq<ConnectionView>,
    from: Seq<char>,
    to: Seq<char>,
)
    requires
        pairs_unique(connections),
    ensures
        pairs_unique(toggle_step(connections, from, to)),
{
    let after = toggle_step(connections, from, to);
    lemma_first_connection_between_is_first(connections, from, to);
    if from != to {
        match first_connection_between(connections, from, to) {
            None => {
                lemma_add_connection_keeps_pairs_unique(connections, from, to);
                assert(after == after_add_connection(connections, from, to));
            },
            Some(k) => {
                let rest = connections.remove(k);
                assert forall|i: int| 0 <= i < rest.len() implies rest[i] == connections[if i < k {
                    i
                } else {
                    i + 1
                }] by {}
                assert forall|i: int, j: int|
                    0 <= i < after.len() && 0 <= j < after.len() && i != j implies !(
                #[trigger] after[i]).joins((#[trigger] after[j]).from, after[j].to) by {
                    let oi = if i < k {
                        i
                    } else {
                        i + 1
                    };
                    let oj = if j < k {
                        j
                    } else {
                        j + 1
                    };
                    if i < rest.len() && j < rest.len() {
                        assert(!connections[oi].joins(connections[oj].from, connections[oj].to));
                    } else if i < rest.len() {
                        assert(!connections[oi].joins(connections[k].from, connections[k].to));
                    } else {
                        assert(!connections[k].joins(connections[oj].from, connections[oj].to));
                    }
                }
            },
        }
    }
}

/// The toggle keeps the connections unique.
pub proof fn lemma_toggle_keeps_pairs_unique(
    connections: Seq<ConnectionView>,
    from_ids: Seq<Seq<char>>,
    to: Seq<char>,
)
    requires
        pairs_unique(connections),
    ensures
        pairs_unique(after_toggle_connections(connections, from_ids, to)),
    decreases from_ids.len(),
{
    if from_ids.len() > 0 {
        lemma_toggle_keeps_pairs_unique(connections, from_ids.drop_last(), to);
        lemma_toggle_step_keeps_pairs_unique(
            after_toggle_connections(connections, from_ids.drop_last(), to),
            from_ids.last(),
            to,
        );
    }
}

/// Finds the first connection that joins `a` and `b`.
pub fn find_connection(connections: &Vec<Connection>, a: &String, b: &String) -> (r: Option<usize>)
    ensures
        match r {
            Some(k) => is_first_connection_between(
                connection_views(connections@),
                a@,
                b@,
                k as int,
            ),
            None => !connected(connection_views(connections@), a@, b@),
        },
        first_connection_between(connection_views(connections@), a@, b@) == match r {
            Some(k) => Some(k as int),
            None => None,
        },
{
    let ghost views = connection_views(connections@);
    let mut k: usize = 0;
    while k < connections.len()
        invariant
            k <= connections@.len(),
            views == connection_views(connections@),
            forall|i: int| 0 <= i < k ==> !(#[trigger] views[i]).joins(a@, b@),
        decreases connections@.len() - k,
    {
        assert(views[k as int] == connections@[k as int]@);
        if connections[k].joins(a, b) {
            proof {
                lemma_first_connection_between(views, a@, b@, k as int);
            }
            return Some(k);
        }
        k += 1;
    }
    None
}

/// Takes one step of the directional toggle.
fn toggle_connection(connections: &mut Vec<Connection>, from_id: String, to_id: &String)
    ensures
        connection_views(final(connections)@) == toggle_step(
            connection_views(old(connections)@),
            from_id@,
            to_id@,
        ),
{
    let ghost before = connection_views(connections@);
    if from_id == *to_id {
        return ;
    }
    match find_connection(connections, &from_id, to_id) {
        Some(index) => {
            assert(before[index as int] == connections@[index as int]@);
            let mut found = connections.remove(index);
            assert(connection_views(connections@) =~= before.remove(index as int));
            let ghost rest = connection_views(connections@);
            match found.kind {
                ConnectionType::Bidirectional => {
                    found.from = to_id.clone();
                    found.to = from_id;
                    found.kind = ConnectionType::Forward;
                    connections.push(found);
                    assert(connection_views(connections@) =~= rest.push(found@));
                },
                ConnectionType::Forward => {
                    if found.from == from_id {
                    } else {
                        found.kind = ConnectionType::Bidirectional;
                        connections.push(found);
                        assert(connection_views(connections@) =~= rest.push(found@));
                    }
                },
                ConnectionType::NoDirection => {
                    found.from = from_id;
                    found.to = to_id.clone();
                    found.kind = ConnectionType::Forward;
                    connections.push(found);
                    assert(connection_views(connections@) =~= rest.push(found@));
                },
            }
        },
        None => {
            let added = Connection {
                from: from_id,
                to: to_id.clone(),
                kind: ConnectionType::Forward,
            };
            connections.push(added);
            assert(connection_views(connections@) =~= before.push(added@));
        },
    }
}

impl AppState {
    /// Connects `from` to `to` by a new `Forward` connection, unless the two
    /// are the same box or are connected already, in either direction.
    pub fn add_connection(&mut self, from: String, to: String)
        ensures
            final(self).canvas_state@.connections == after_add_connection(
                old(self).canvas_state@.connections,
                from@,
                to@,
            ),
            final(self).canvas_state@.boxes == old(self).canvas_state@.boxes,
            final(self).reject_negative_coordinates == old(self).reject_negative_coordinates,
            old(self).canvas_state@.is_valid() ==> final(self).canvas_state@.is_valid(),
    {
        let ghost before = connection_views(self.canvas_state.connections@);
        proof {
            if pairs_unique(before) {
                lemma_add_connection_keeps_pairs_unique(before, from@, to@);
            }
        }
        if from == to {
            return ;
        }
        match find_connection(&self.canvas_state.connections, &from, &to) {
            Some(_) => {},
            None => {
                let added = Connection { from, to, kind: ConnectionType::Forward };
                self.canvas_state.connections.push(added);
                assert(connection_views(self.canvas_state.connections@) =~= before.push(added@));
            },
        }
    }

    /// Takes one step of the directional toggle for each id of `from_ids`, in
    /// their order, with `to_id` as the target. Returns the canvas after the
    /// command.
    pub fn toggle_connections(&mut self, from_ids: Vec<String>, to_id: String) -> (r: CanvasState)
        ensures
            final(self).canvas_state@.connections == after_toggle_connections(
                old(self).canvas_state@.connections,
                string_views(from_ids@),
                to_id@,
            ),
            final(self).canvas_state@.boxes == old(self).canvas_state@.boxes,
            final(self).reject_negative_coordinates == old(self).reject_negative_coordinates,
            old(self).canvas_state@.is_valid() ==> final(self).canvas_state@.is_valid(),
            r@ == final(self).canvas_state@,
    {
        let ghost before = connection_views(self.canvas_state.connections@);
        let ghost ids = string_views(from_ids@);
        proof {
            if pairs_unique(before) {
                lemma_toggle_keeps_pairs_unique(before, ids, to_id@);
            }
        }
        let mut i: usize = 0;
        while i < from_ids.len()
            invariant
                i <= from_ids@.len(),
                ids == string_views(from_ids@),
                self.canvas_state.boxes == old(self).canvas_state.boxes,
                self.reject_negative_coordinates == old(self).reject_negative_coordinates,
                connection_views(self.canvas_state.connections@) == after_toggle_connections(
                    before,
                    ids.take(i as int),
                    to_id@,
                ),
            decreases from_ids@.len() - i,
        {
            proof {
                assert(ids.take(i as int + 1).drop_last() =~= ids.take(i as int));
                assert(ids.take(i as int + 1).last() == from_ids@[i as int]@);
            }
            toggle_connection(&mut self.canvas_state.connections, from_ids[i].clone(), &to_id);
            i += 1;
        }
        assert(ids.take(ids.len() as int) =~= ids);
        self.canvas_state.clone()
    }

    /// Advances the type of the first connection between `from` and `to` by
    /// one step of the cycle `NoDirection`, `Forward`, `Bidirectional`, and
    /// returns that connection as it is then. Where the two are not
    /// connected nothing changes and `None` is returned.
    pub fn cycle_connection_type(&mut self, from: String, to: String) -> (r: Option<Connection>)
        ensures
            final(self).canvas_state@.connections == after_cycle_connection_type(
                old(self).canvas_state@.connections,
                from@,
                to@,
            ),
            final(self).canvas_state@.boxes == old(self).canvas_state@.boxes,
            final(self).reject_negative_coordinates == old(self).reject_negative_coordinates,
            match first_connection_between(old(self).canvas_state@.connections, from@, to@) {
                Some(k) => r matches Some(c) && c@ == final(self).canvas_state@.connections[k],
                None => r is None,
            },
            old(self).canvas_state@.is_valid() ==> final(self).canvas_state@.is_valid(),
    {
        let ghost before = connection_views(self.canvas_state.connections@);
        proof {
            if pairs_unique(before) {
                lemma_cycle_keeps_pairs_unique(before, from@, to@);
            }
        }
        match find_connection(&self.canvas_state.connections, &from, &to) {
            Some(k) => {
                assert(before[k as int] == self.canvas_state.connections@[k as int]@);
                let next = self.canvas_state.connections[k].kind.next();
                self.canvas_state.connections[k].kind = next;
                assert(connection_views(self.canvas_state.connections@)
                    =~= after_cycle_connection_type(before, from@, to@));
                Some(self.canvas_state.connections[k].clone())
            },
            None => None,
        }
    }
}

} // verus!
