//! Connection bookkeeping: the live connections per peer and, per
//! connection, the requests that are in flight on it in each direction.
//!
//! One row is kept per live connection, in establishment order; a connection
//! id identifies one live connection and is never reused while it lives. New
//! requests are attached to the peer's first connection in establishment
//! order, which keeps the choice deterministic.

use vstd::prelude::*;

use crate::types::ConnectionId;
use crate::types::PeerId;
use crate::types::RequestDirection;
use crate::types::RequestId;

verus! {

/// The requests in flight on one connection, by direction: sent or received
/// on it, with no completion reported yet.
pub struct PendingResponses {
    pub inbound_requests: Vec<RequestId>,
    pub outbound_requests: Vec<RequestId>,
}

/// One live connection of one peer and its in-flight requests.
pub struct ConnectionEntry {
    pub peer: PeerId,
    pub connection: ConnectionId,
    pub requests: PendingResponses,
}

/// Per-peer set of active connections, and per-connection in-flight request
/// ids.
pub struct PeerConnectionManager {
    pub entries: Vec<ConnectionEntry>,
}

impl PendingResponses {
    /// The in-flight list for one direction.
    pub open spec fn list(self, direction: RequestDirection) -> Seq<RequestId> {
        match direction {
            RequestDirection::Inbound => self.inbound_requests@,
            RequestDirection::Outbound => self.outbound_requests@,
        }
    }
}

/// The connection ids belonging to `peer` among `rows`, in order.
pub open spec fn conn_ids_of(rows: Seq<ConnectionEntry>, peer: PeerId) -> Seq<ConnectionId>
    decreases rows.len(),
{
    if rows.len() == 0 {
        Seq::empty()
    } else {
        conn_ids_of(rows.drop_last(), peer) + if rows.last().peer == peer {
            seq![rows.last().connection]
        } else {
            Seq::empty()
        }
    }
}

/// `conn_ids_of` distributes over concatenation of row sequences.
pub proof fn lemma_conn_ids_of_concat(a: Seq<ConnectionEntry>, b: Seq<ConnectionEntry>, peer: PeerId)
    ensures
        conn_ids_of(a + b, peer) == conn_ids_of(a, peer) + conn_ids_of(b, peer),
    decreases b.len(),
{
    if b.len() == 0 {
        assert(a + b =~= a);
        assert(conn_ids_of(a, peer) + conn_ids_of(b, peer) =~= conn_ids_of(a, peer));
    } else {
        lemma_conn_ids_of_concat(a, b.drop_last(), peer);
        assert((a + b).drop_last() =~= a + b.drop_last());
        assert((a + b).last() == b.last());
        if b.last().peer == peer {
            assert(conn_ids_of(a + b, peer) =~= conn_ids_of(a, peer) + conn_ids_of(b, peer));
        } else {
            assert(conn_ids_of(a + b, peer) =~= conn_ids_of(a, peer) + conn_ids_of(b, peer));
        }
    }
}

/// Rows that agree on peers and connection ids index the same connection
/// lists.
pub proof fn lemma_conn_ids_of_same(a: Seq<ConnectionEntry>, b: Seq<ConnectionEntry>, peer: PeerId)
    requires
        a.len() == b.len(),
        forall|k: int|
            0 <= k < a.len() ==> (#[trigger] a[k]).peer == b[k].peer && a[k].connection
                == b[k].connection,
    ensures
        conn_ids_of(a, peer) == conn_ids_of(b, peer),
    decreases a.len(),
{
    if a.len() > 0 {
        lemma_conn_ids_of_same(a.drop_last(), b.drop_last(), peer);
        assert(conn_ids_of(a, peer) =~= conn_ids_of(b, peer));
    }
}

impl PeerConnectionManager {
    /// Well-formed: a connection id is tracked at most once.
    pub open spec fn wf(self) -> bool {
        forall|i: int, j: int|
            0 <= i < self.entries@.len() && 0 <= j < self.entries@.len() && i != j
                ==> (#[trigger] self.entries@[i]).connection != (#[trigger] self.entries@[j]).connection
    }

    /// Whether at least one connection to `peer` is established.
    pub open spec fn connected(self, peer: PeerId) -> bool {
        exists|i: int| 0 <= i < self.entries@.len() && (#[trigger] self.entries@[i]).peer == peer
    }

    /// The connection ids of `peer`, in establishment order.
    pub open spec fn conns_of(self, peer: PeerId) -> Seq<ConnectionId> {
        conn_ids_of(self.entries@, peer)
    }

    /// Whether `conn` is a live connection of some peer.
    pub open spec fn has_conn(self, conn: ConnectionId) -> bool {
        exists|i: int|
            0 <= i < self.entries@.len() && (#[trigger] self.entries@[i]).connection == conn
    }

    /// Row index of `conn` (meaningful only when it is live).
    pub open spec fn conn_at(self, conn: ConnectionId) -> int {
        choose|i: int|
            0 <= i < self.entries@.len() && (#[trigger] self.entries@[i]).connection == conn
    }

    /// The ids in flight on `conn` in `direction`; empty if `conn` is not
    /// live.
    pub open spec fn in_flight(self, conn: ConnectionId, direction: RequestDirection) -> Seq<
        RequestId,
    > {
        if self.has_conn(conn) {
            self.entries@[self.conn_at(conn)].requests.list(direction)
        } else {
            Seq::empty()
        }
    }

    /// Whether `id` is in flight on some connection in `direction`.
    pub open spec fn some_in_flight(self, id: RequestId, direction: RequestDirection) -> bool {
        exists|c: ConnectionId| #[trigger] self.in_flight(c, direction).contains(id)
    }

    /// Every connection id listed for a peer is live.
    pub proof fn lemma_conns_of_live(self, peer: PeerId)
        ensures
            forall|c: ConnectionId|
                #[trigger] self.conns_of(peer).contains(c) ==> self.has_conn(c),
    {
        lemma_conn_ids_subset(self.entries@, peer);
        assert forall|c: ConnectionId| #[trigger] self.conns_of(peer).contains(c) implies
            self.has_conn(c) by {
            let i = choose|i: int|
                0 <= i < self.entries@.len() && (#[trigger] self.entries@[i]).peer == peer
                    && self.entries@[i].connection == c;
            assert(self.entries@[i].connection == c);
        }
    }

    /// A peer is connected exactly when it has a connection id tracked.
    pub proof fn lemma_connected_iff_conns(self, peer: PeerId)
        ensures
            self.connected(peer) <==> self.conns_of(peer).len() > 0,
    {
        lemma_rows_with_peer_iff_conn_ids(self.entries@, peer);
    }

    /// No tracked state at all.
    pub fn new() -> (r: PeerConnectionManager)
        ensures
            r.entries@.len() == 0,
            r.wf(),
    {
        PeerConnectionManager { entries: Vec::new() }
    }

    /// Row index of the first connection of `peer`, if any.
    fn find_first_of_peer(&self, peer: PeerId) -> (r: Option<usize>)
        ensures
            match r {
                Some(i) => i < self.entries@.len() && self.entries@[i as int].peer == peer
                    && conn_ids_of(self.entries@.subrange(0, i as int), peer) == Seq::<
                    ConnectionId,
                >::empty(),
                None => !self.connected(peer),
            },
    {
        let mut i: usize = 0;
        while i < self.entries.len()
            invariant
                i <= self.entries@.len(),
                forall|k: int| 0 <= k < i ==> (#[trigger] self.entries@[k]).peer != peer,
            decreases self.entries@.len() - i,
        {
            if self.entries[i].peer == peer {
                proof {
                    lemma_conn_ids_empty(self.entries@.subrange(0, i as int), peer);
                }
                return Some(i);
            }
            i = i + 1;
        }
        None
    }

    /// Row index of `conn`, if it is live.
    fn find_conn(&self, conn: ConnectionId) -> (r: Option<usize>)
        requires
            self.wf(),
        ensures
            match r {
                Some(i) => self.has_conn(conn) && self.conn_at(conn) == i as int && i
                    < self.entries@.len() && self.entries@[i as int].connection == conn,
                None => !self.has_conn(conn),
            },
    {
        let mut i: usize = 0;
        while i < self.entries.len()
            invariant
                self.wf(),
                i <= self.entries@.len(),
                forall|k: int| 0 <= k < i ==> (#[trigger] self.entries@[k]).connection != conn,
            decreases self.entries@.len() - i,
        {
            if self.entries[i].connection == conn {
                proof {
                    let w = self.conn_at(conn);
                    assert(self.entries@[w].connection == conn);
                }
                return Some(i);
            }
            i = i + 1;
        }
        None
    }

    /// Whether at least one connection to `peer` is established.
    pub fn is_connected(&self, peer: PeerId) -> (r: bool)
        ensures
            r == self.connected(peer),
    {
        self.find_first_of_peer(peer).is_some()
    }

    /// The connection ids of `peer`, in establishment order.
    pub fn get_connections(&self, peer: PeerId) -> (r: Vec<ConnectionId>)
        ensures
            r@ == self.conns_of(peer),
    {
        let mut out: Vec<ConnectionId> = Vec::new();
        let mut i: usize = 0;
        while i < self.entries.len()
            invariant
                i <= self.entries@.len(),
                out@ == conn_ids_of(self.entries@.subrange(0, i as int), peer),
            decreases self.entries@.len() - i,
        {
            proof {
                assert(self.entries@.subrange(0, i + 1 as int).drop_last() =~= self.entries@.subrange(
                    0,
                    i as int,
                ));
            }
            if self.entries[i].peer == peer {
                out.push(self.entries[i].connection);
            }
            i = i + 1;
        }
        proof {
            assert(self.entries@.subrange(0, self.entries@.len() as int) =~= self.entries@);
        }
        out
    }

    /// The peers with at least one live connection, without repetition.
    pub fn get_connected_peers(&self) -> (r: Vec<PeerId>)
        ensures
            forall|p: PeerId| r@.contains(p) == self.connected(p),
            forall|i: int, j: int| 0 <= i < r@.len() && 0 <= j < r@.len() && i != j ==> r@[i] != r@[j],
    {
        let mut out: Vec<PeerId> = Vec::new();
        let mut i: usize = 0;
        while i < self.entries.len()
            invariant
                i <= self.entries@.len(),
                forall|p: PeerId|
                    out@.contains(p) == exists|k: int|
                        0 <= k < i && (#[trigger] self.entries@[k]).peer == p,
                forall|a: int, b: int|
                    0 <= a < out@.len() && 0 <= b < out@.len() && a != b ==> out@[a] != out@[b],
            decreases self.entries@.len() - i,
        {
            let p = self.entries[i].peer;
            let ghost prev = out@;
            if !vec_contains_peer(&out, p) {
                out.push(p);
            }
            proof {
                assert(self.entries@[i as int].peer == p);
                assert(out@ == prev || out@ == prev.push(p));
                assert forall|q: PeerId| #[trigger] out@.contains(q) implies (exists|k: int|
                    0 <= k < i + 1 && (#[trigger] self.entries@[k]).peer == q) by {
                    let idx = choose|idx: int| 0 <= idx < out@.len() && out@[idx] == q;
                    if idx < prev.len() {
                        assert(prev[idx] == q);
                        assert(prev.contains(q));
                    } else {
                        assert(q == p);
                        assert(self.entries@[i as int].peer == q);
                    }
                }
                assert forall|q: PeerId| (exists|k: int|
                    0 <= k < i + 1 && (#[trigger] self.entries@[k]).peer == q) implies #[trigger] out@.contains(
                    q,
                ) by {
                    let k = choose|k: int|
                        0 <= k < i + 1 && (#[trigger] self.entries@[k]).peer == q;
                    if k < i {
                        assert(prev.contains(q));
                        let idx = choose|idx: int| 0 <= idx < prev.len() && prev[idx] == q;
                        assert(out@[idx] == q);
                    } else {
                        assert(q == p);
                        if prev.contains(p) {
                            let idx = choose|idx: int| 0 <= idx < prev.len() && prev[idx] == p;
                            assert(out@[idx] == q);
                        } else {
                            assert(out@ == prev.push(p));
                            assert(out@[out@.len() - 1] == q);
                        }
                    }
                }
            }
            i = i + 1;
        }
        out
    }
    /// Register a new connection to `peer`. A connection id that is already
    /// tracked is left as it is.
    pub fn add_connection(&mut self, peer: PeerId, connection: ConnectionId)
        requires
            old(self).wf(),
        ensures
            final(self).wf(),
            old(self).has_conn(connection) ==> *final(self) == *old(self),
            !old(self).has_conn(connection) ==> {
                &&& final(self).conns_of(peer) == old(self).conns_of(peer).push(connection)
                &&& forall|p: PeerId|
                    p != peer ==> final(self).conns_of(p) == old(self).conns_of(p)
                &&& forall|p: PeerId|
                    final(self).connected(p) == (old(self).connected(p) || p == peer)
                &&& final(self).has_conn(connection)
                &&& forall|c: ConnectionId|
                    c != connection ==> final(self).has_conn(c) == old(self).has_conn(c)
                &&& forall|d: RequestDirection|
                    final(self).in_flight(connection, d) == Seq::<RequestId>::empty()
                &&& forall|c: ConnectionId, d: RequestDirection|
                    c != connection ==> final(self).in_flight(c, d) == old(self).in_flight(c, d)
            },
    {
        if self.find_conn(connection).is_some() {
            return ;
        }
        let ghost prev = *self;
        let row = ConnectionEntry {
            peer,
            connection,
            requests: PendingResponses { inbound_requests: Vec::new(), outbound_requests: Vec::new() },
        };
        self.entries.push(row);
        proof {
            let rows = self.entries@;
            let n = prev.entries@.len() as int;
            assert(rows.drop_last() =~= prev.entries@);
            assert(forall|k: int| 0 <= k < n ==> rows[k] == prev.entries@[k]);
            assert(self.wf());
            assert(self.entries@[n].connection == connection);
            assert(self.has_conn(connection));
            assert(conn_ids_of(rows, peer) =~= conn_ids_of(prev.entries@, peer).push(connection));
            assert forall|p: PeerId| p != peer implies self.conns_of(p) == prev.conns_of(p) by {
                assert(conn_ids_of(rows, p) =~= conn_ids_of(prev.entries@, p));
            }
            assert forall|p: PeerId| self.connected(p) == (prev.connected(p) || p
                == peer) by {
                if self.connected(p) {
                    let i = choose|i: int|
                        0 <= i < rows.len() && (#[trigger] rows[i]).peer == p;
                    if i < n {
                        assert(prev.entries@[i].peer == p);
                    }
                }
                if prev.connected(p) {
                    let i = choose|i: int|
                        0 <= i < prev.entries@.len() && (#[trigger] prev.entries@[i]).peer == p;
                    assert(rows[i].peer == p);
                }
                if p == peer {
                    assert(rows[n].peer == p);
                }
            }
            assert forall|c: ConnectionId| c != connection implies self.has_conn(c)
                == prev.has_conn(c) by {
                if self.has_conn(c) {
                    let i = self.conn_at(c);
                    assert(rows[i].connection == c);
                    assert(i < n);
                    assert(prev.entries@[i].connection == c);
                }
                if prev.has_conn(c) {
                    let i = prev.conn_at(c);
                    assert(prev.entries@[i].connection == c);
                    assert(rows[i].connection == c);
                }
            }
            assert forall|d: RequestDirection| self.in_flight(connection, d) == Seq::<
                RequestId,
            >::empty() by {
                assert(self.conn_at(connection) == n);
                assert(rows[n].requests.list(d) =~= Seq::<RequestId>::empty());
            }
            assert forall|c: ConnectionId, d: RequestDirection| c != connection implies self.in_flight(c, d) == prev.in_flight(c, d) by {
                if prev.has_conn(c) {
                    let i = prev.conn_at(c);
                    assert(prev.entries@[i].connection == c);
                    assert(rows[i].connection == c);
                    assert(self.has_conn(c));
                    assert(self.conn_at(c) == i);
                } else {
                    if self.has_conn(c) {
                        let i = self.conn_at(c);
                        assert(rows[i].connection == c);
                        assert(i < n);
                        assert(prev.entries@[i].connection == c);
                    }
                }
            }
        }
    }

    /// Attach `request_id` to the first connection of `peer`, if the peer is
    /// connected, and return that connection.
    pub fn add_request(&mut self, peer: PeerId, request_id: RequestId, direction: RequestDirection)
        -> (r: Option<ConnectionId>)
        requires
            old(self).wf(),
        ensures
            final(self).wf(),
            r is Some <==> old(self).connected(peer),
            r is None ==> *final(self) == *old(self),
            r is Some ==> {
                let conn = r->Some_0;
                &&& old(self).conns_of(peer).len() > 0 && conn == old(self).conns_of(peer)[0]
                &&& final(self).in_flight(conn, direction) == old(self).in_flight(
                    conn,
                    direction,
                ).push(request_id)
                &&& forall|c: ConnectionId, d: RequestDirection|
                    !(c == conn && d == direction) ==> final(self).in_flight(c, d) == old(
                        self,
                    ).in_flight(c, d)
                &&& forall|p: PeerId| final(self).conns_of(p) == old(self).conns_of(p)
                &&& forall|p: PeerId| final(self).connected(p) == old(self).connected(p)
                &&& forall|c: ConnectionId| final(self).has_conn(c) == old(self).has_conn(c)
            },
    {
        let found = self.find_first_of_peer(peer);
        match found {
            None => None,
            Some(i) => {
                let ghost prev = *self;
                let conn = self.entries[i].connection;
                let mut row = self.entries.remove(i);
                match direction {
                    RequestDirection::Inbound => row.requests.inbound_requests.push(request_id),
                    RequestDirection::Outbound => row.requests.outbound_requests.push(request_id),
                }
                self.entries.insert(i, row);
                proof {
                    let rows = self.entries@;
                    let n = rows.len() as int;
                    assert(rows.len() == prev.entries@.len());
                    assert(forall|k: int|
                        0 <= k < n && k != i ==> rows[k] == prev.entries@[k]);
                    assert(rows[i as int].peer == prev.entries@[i as int].peer
                        && rows[i as int].connection == prev.entries@[i as int].connection);
                    assert(self.wf());
                    self.lemma_same_shape_frames(prev);
                    assert(prev.entries@ =~= prev.entries@.subrange(0, i as int) + prev.entries@.subrange(
                        i as int,
                        n,
                    ));
                    lemma_conn_ids_of_concat(
                        prev.entries@.subrange(0, i as int),
                        prev.entries@.subrange(i as int, n),
                        peer,
                    );
                    lemma_conn_ids_first(prev.entries@.subrange(i as int, n), peer);
                    assert(prev.conns_of(peer)[0] == conn);
                    assert(prev.has_conn(conn)) by {
                        assert(prev.entries@[i as int].connection == conn);
                    }
                    assert(self.conn_at(conn) == i as int) by {
                        assert(rows[i as int].connection == conn);
                    }
                    assert(prev.conn_at(conn) == i as int) by {
                        assert(prev.entries@[i as int].connection == conn);
                    }
                    assert(self.in_flight(conn, direction) == prev.in_flight(
                        conn,
                        direction,
                    ).push(request_id));
                    assert forall|c: ConnectionId, d: RequestDirection| !(c == conn && d
                        == direction) implies self.in_flight(c, d) == prev.in_flight(
                        c,
                        d,
                    ) by {
                        if prev.has_conn(c) {
                            let k = prev.conn_at(c);
                            assert(prev.entries@[k].connection == c);
                            assert(rows[k].connection == c);
                            assert(self.conn_at(c) == k);
                            if k != i {
                                assert(rows[k] == prev.entries@[k]);
                            }
                        }
                    }
                }
                Some(conn)
            },
        }
    }

    /// Drop `request_id` from the in-flight list of `connection` in
    /// `direction`; no effect if it is not there.
    pub fn remove_request(
        &mut self,
        connection: ConnectionId,
        request_id: RequestId,
        direction: RequestDirection,
    )
        requires
            old(self).wf(),
        ensures
            final(self).wf(),
            final(self).in_flight(connection, direction) == old(self).in_flight(
                connection,
                direction,
            ).remove_value(request_id),
            forall|c: ConnectionId, d: RequestDirection|
                !(c == connection && d == direction) ==> final(self).in_flight(c, d) == old(
                    self,
                ).in_flight(c, d),
            forall|p: PeerId| final(self).conns_of(p) == old(self).conns_of(p),
            forall|p: PeerId| final(self).connected(p) == old(self).connected(p),
            forall|c: ConnectionId| final(self).has_conn(c) == old(self).has_conn(c),
    {
        let found = self.find_conn(connection);
        match found {
            None => {
                proof {
                    old(self).in_flight(connection, direction).index_of_first_ensures(request_id);
                    assert(old(self).in_flight(connection, direction).remove_value(request_id)
                        =~= old(self).in_flight(connection, direction));
                }
            },
            Some(i) => {
                let ghost prev = *self;
                let mut row = self.entries.remove(i);
                match direction {
                    RequestDirection::Inbound => {
                        remove_first_id(&mut row.requests.inbound_requests, request_id);
                    },
                    RequestDirection::Outbound => {
                        remove_first_id(&mut row.requests.outbound_requests, request_id);
                    },
                }
                self.entries.insert(i, row);
                proof {
                    let rows = self.entries@;
                    let n = rows.len() as int;
                    assert(rows.len() == prev.entries@.len());
                    assert(forall|k: int|
                        0 <= k < n && k != i ==> rows[k] == prev.entries@[k]);
                    assert(rows[i as int].peer == prev.entries@[i as int].peer
                        && rows[i as int].connection == prev.entries@[i as int].connection);
                    assert(self.wf());
                    self.lemma_same_shape_frames(prev);
                    assert(self.conn_at(connection) == i as int) by {
                        assert(rows[i as int].connection == connection);
                    }
                    assert(prev.conn_at(connection) == i as int) by {
                        assert(prev.entries@[i as int].connection == connection);
                    }
                    assert forall|c: ConnectionId, d: RequestDirection| !(c == connection && d
                        == direction) implies self.in_flight(c, d) == prev.in_flight(
                        c,
                        d,
                    ) by {
                        if prev.has_conn(c) {
                            let k = prev.conn_at(c);
                            assert(prev.entries@[k].connection == c);
                            assert(rows[k].connection == c);
                            assert(self.conn_at(c) == k);
                            if k != i {
                                assert(rows[k] == prev.entries@[k]);
                            }
                        }
                    }
                }
            },
        }
    }

    /// Drop `connection` (a connection of `peer`) and hand back the requests
    /// that were still in flight on it.
    pub fn remove_connection(&mut self, peer: PeerId, connection: ConnectionId) -> (r: Option<
        PendingResponses,
    >)
        requires
            old(self).wf(),
        ensures
            final(self).wf(),
            r is Some <==> old(self).conns_of(peer).contains(connection),
            r is None ==> *final(self) == *old(self),
            r is Some ==> {
                let cs = old(self).conns_of(peer);
                let k = cs.index_of(connection);
                &&& r->Some_0.inbound_requests@ == old(self).in_flight(
                    connection,
                    RequestDirection::Inbound,
                )
                &&& r->Some_0.outbound_requests@ == old(self).in_flight(
                    connection,
                    RequestDirection::Outbound,
                )
                &&& 0 <= k < cs.len() && cs[k] == connection
                &&& forall|k2: int| 0 <= k2 < cs.len() && k2 != k ==> cs[k2] != connection
                &&& final(self).conns_of(peer) == cs.remove(k)
                &&& !final(self).has_conn(connection)
                &&& forall|c: ConnectionId|
                    c != connection ==> final(self).has_conn(c) == old(self).has_conn(c)
                &&& forall|c: ConnectionId, d: RequestDirection|
                    c != connection ==> final(self).in_flight(c, d) == old(self).in_flight(c, d)
                &&& forall|p: PeerId| p != peer ==> final(self).conns_of(p) == old(self).conns_of(p)
                &&& forall|p: PeerId| p != peer ==> final(self).connected(p) == old(self).connected(p)
                &&& final(self).connected(peer) == (cs.len() > 1)
            },
    {
        let found = self.find_conn(connection);
        match found {
            None => {
                proof {
                    if old(self).conns_of(peer).contains(connection) {
                        lemma_conn_ids_subset(self.entries@, peer);
                    }
                }
                None
            },
            Some(i) => {
                if self.entries[i].peer != peer {
                    proof {
                        if old(self).conns_of(peer).contains(connection) {
                            lemma_conn_ids_subset(self.entries@, peer);
                            let w = choose|w: int|
                                0 <= w < self.entries@.len() && (#[trigger] self.entries@[w]).peer
                                    == peer && self.entries@[w].connection == connection;
                            assert(w == i as int);
                        }
                    }
                    return None;
                }
                let ghost prev = *self;
                let row = self.entries.remove(i);
                proof {
                    let rows = self.entries@;
                    let n = prev.entries@.len() as int;
                    assert(rows =~= prev.entries@.subrange(0, i as int) + prev.entries@.subrange(
                        i + 1,
                        n,
                    ));
                    assert(forall|k: int| 0 <= k < i ==> rows[k] == prev.entries@[k]);
                    assert(forall|k: int|
                        i <= k < n - 1 ==> rows[k] == prev.entries@[k + 1]);
                    assert(self.wf());
                    assert(prev.conn_at(connection) == i as int) by {
                        assert(prev.entries@[i as int].connection == connection);
                    }
                    // the returned in-flight lists
                    assert(row.requests.inbound_requests@ == prev.in_flight(
                        connection,
                        RequestDirection::Inbound,
                    ));
                    assert(row.requests.outbound_requests@ == prev.in_flight(
                        connection,
                        RequestDirection::Outbound,
                    ));
                    // membership of the removed connection in the peer's list
                    assert(prev.conns_of(peer).contains(connection)) by {
                        assert(prev.entries@ =~= prev.entries@.subrange(0, i as int)
                            + prev.entries@.subrange(i as int, n));
                        lemma_conn_ids_of_concat(
                            prev.entries@.subrange(0, i as int),
                            prev.entries@.subrange(i as int, n),
                            peer,
                        );
                        lemma_conn_ids_first(prev.entries@.subrange(i as int, n), peer);
                        let a = conn_ids_of(prev.entries@.subrange(0, i as int), peer);
                        assert(prev.conns_of(peer)[a.len() as int] == connection);
                    }
                    let cs = prev.conns_of(peer);
                    lemma_conn_ids_no_dup(prev.entries@, peer);
                    let k = cs.index_of(connection);
                    assert(0 <= k < cs.len() && cs[k] == connection);
                    assert(forall|k2: int| 0 <= k2 < cs.len() && k2 != k ==> cs[k2] != connection);
                    // the peer's list loses exactly that entry
                    assert(self.conns_of(peer) == cs.remove(k)) by {
                        let a = prev.entries@.subrange(0, i as int);
                        let b = prev.entries@.subrange(i + 1, n);
                        let mid = prev.entries@.subrange(i as int, i + 1);
                        assert(prev.entries@ =~= a + mid + b);
                        lemma_conn_ids_of_concat(a + mid, b, peer);
                        lemma_conn_ids_of_concat(a, mid, peer);
                        lemma_conn_ids_of_concat(a, b, peer);
                        assert(conn_ids_of(mid, peer) =~= seq![connection]) by {
                            assert(mid.drop_last() =~= Seq::<ConnectionEntry>::empty());
                            assert(conn_ids_of(mid.drop_last(), peer) =~= Seq::<
                                ConnectionId,
                            >::empty());
                            assert(mid.last() == prev.entries@[i as int]);
                        }
                        assert(cs =~= conn_ids_of(a, peer) + seq![connection] + conn_ids_of(
                            b,
                            peer,
                        ));
                        assert(k == conn_ids_of(a, peer).len()) by {
                            assert(cs[conn_ids_of(a, peer).len() as int] == connection);
                        }
                        assert(cs.remove(k) =~= conn_ids_of(a, peer) + conn_ids_of(b, peer));
                    }
                    // the connection itself is gone
                    assert(!self.has_conn(connection)) by {
                        if self.has_conn(connection) {
                            let w = self.conn_at(connection);
                            assert(rows[w].connection == connection);
                            if w < i {
                                assert(prev.entries@[w].connection == connection);
                            } else {
                                assert(prev.entries@[w + 1].connection == connection);
                            }
                        }
                    }
                    // frames
                    assert forall|c: ConnectionId| c != connection implies self.has_conn(c)
                        == prev.has_conn(c) by {
                        self.lemma_remove_row_conn_frames(prev, i as int, c);
                    }
                    assert forall|c: ConnectionId, d: RequestDirection| c != connection implies self.in_flight(c, d) == prev.in_flight(c, d) by {
                        self.lemma_remove_row_conn_frames(prev, i as int, c);
                        if prev.has_conn(c) {
                            let w = prev.conn_at(c);
                            if w < i {
                                assert(rows[w].connection == c);
                                assert(self.conn_at(c) == w);
                                assert(rows[w] == prev.entries@[w]);
                            } else {
                                assert(w > i);
                                assert(rows[w - 1].connection == c);
                                assert(self.conn_at(c) == w - 1);
                                assert(rows[w - 1] == prev.entries@[w]);
                            }
                        }
                    }
                    assert forall|p: PeerId| p != peer implies self.conns_of(p)
                        == prev.conns_of(p) by {
                        let a = prev.entries@.subrange(0, i as int);
                        let b = prev.entries@.subrange(i + 1, n);
                        let mid = prev.entries@.subrange(i as int, i + 1);
                        assert(prev.entries@ =~= a + mid + b);
                        lemma_conn_ids_of_concat(a + mid, b, p);
                        lemma_conn_ids_of_concat(a, mid, p);
                        lemma_conn_ids_of_concat(a, b, p);
                        assert(conn_ids_of(mid, p) =~= Seq::<ConnectionId>::empty()) by {
                            assert(mid.drop_last() =~= Seq::<ConnectionEntry>::empty());
                            assert(conn_ids_of(mid.drop_last(), p) =~= Seq::<
                                ConnectionId,
                            >::empty());
                            assert(mid.last() == prev.entries@[i as int]);
                        }
                        assert(self.conns_of(p) =~= prev.conns_of(p));
                    }
                    assert forall|p: PeerId| p != peer implies self.connected(p)
                        == prev.connected(p) by {
                        self.lemma_connected_iff_conns(p);
                        prev.lemma_connected_iff_conns(p);
                    }
                    assert(self.connected(peer) == (cs.len() > 1)) by {
                        self.lemma_connected_iff_conns(peer);
                    }
                }
                Some(row.requests)
            },
        }
    }

    /// Two managers whose rows agree pointwise on peers and connection ids
    /// agree on connectedness, connection lists and locations.
    proof fn lemma_same_shape_frames(self, other: PeerConnectionManager)
        requires
            self.entries@.len() == other.entries@.len(),
            forall|k: int|
                0 <= k < self.entries@.len() ==> (#[trigger] self.entries@[k]).peer
                    == other.entries@[k].peer && self.entries@[k].connection
                    == other.entries@[k].connection,
        ensures
            forall|p: PeerId| self.conns_of(p) == other.conns_of(p),
            forall|p: PeerId| self.connected(p) == other.connected(p),
            forall|c: ConnectionId| self.has_conn(c) == other.has_conn(c),
            forall|c: ConnectionId|
                self.has_conn(c) ==> #[trigger] self.conn_at(c) == other.conn_at(c)
                    || !self.wf(),
    {
        assert forall|p: PeerId| self.conns_of(p) == other.conns_of(p) by {
            lemma_conn_ids_of_same(self.entries@, other.entries@, p);
        }
        assert forall|p: PeerId| self.connected(p) == other.connected(p) by {
            if self.connected(p) {
                let i = choose|i: int|
                    0 <= i < self.entries@.len() && (#[trigger] self.entries@[i]).peer == p;
                assert(other.entries@[i].peer == p);
            }
            if other.connected(p) {
                let i = choose|i: int|
                    0 <= i < other.entries@.len() && (#[trigger] other.entries@[i]).peer == p;
                assert(self.entries@[i].peer == p);
            }
        }
        assert forall|c: ConnectionId| self.has_conn(c) == other.has_conn(c) by {
            if self.has_conn(c) {
                let i = self.conn_at(c);
                assert(self.entries@[i].connection == c);
                assert(other.entries@[i].connection == c);
            }
            if other.has_conn(c) {
                let i = other.conn_at(c);
                assert(other.entries@[i].connection == c);
                assert(self.entries@[i].connection == c);
            }
        }
        assert forall|c: ConnectionId|
            self.has_conn(c) && self.wf() implies #[trigger] self.conn_at(c) == other.conn_at(
            c,
        ) by {
            let i = self.conn_at(c);
            assert(self.entries@[i].connection == c);
            assert(other.entries@[i].connection == c);
            let j = other.conn_at(c);
            assert(other.entries@[j].connection == c);
            assert(self.entries@[j].connection == c);
        }
    }

    /// After removing row `i`, any other connection id is live exactly as
    /// before.
    proof fn lemma_remove_row_conn_frames(self, prev: PeerConnectionManager, i: int, c: ConnectionId)
        requires
            0 <= i < prev.entries@.len(),
            self.entries@ == prev.entries@.remove(i),
            c != prev.entries@[i].connection,
        ensures
            self.has_conn(c) == prev.has_conn(c),
    {
        let n = prev.entries@.len() as int;
        assert(forall|k: int| 0 <= k < i ==> self.entries@[k] == prev.entries@[k]);
        assert(forall|k: int| i <= k < n - 1 ==> self.entries@[k] == prev.entries@[k + 1]);
        if self.has_conn(c) {
            let w = self.conn_at(c);
            assert(self.entries@[w].connection == c);
            if w < i {
                assert(prev.entries@[w].connection == c);
            } else {
                assert(prev.entries@[w + 1].connection == c);
            }
        }
        if prev.has_conn(c) {
            let w = prev.conn_at(c);
            assert(prev.entries@[w].connection == c);
            if w < i {
                assert(self.entries@[w].connection == c);
            } else {
                assert(w != i);
                assert(self.entries@[w - 1].connection == c);
            }
        }
    }
}

/// Remove the first occurrence of `id` from `v`, if there is one.
fn remove_first_id(v: &mut Vec<RequestId>, id: RequestId)
    ensures
        final(v)@ == old(v)@.remove_value(id),
{
    proof {
        old(v)@.index_of_first_ensures(id);
    }
    let mut i: usize = 0;
    while i < v.len()
        invariant
            i <= v@.len(),
            v@ == old(v)@,
            forall|k: int| 0 <= k < i ==> v@[k] != id,
        decreases v@.len() - i,
    {
        if v[i] == id {
            proof {
                old(v)@.index_of_first_ensures(id);
                assert(old(v)@.index_of_first(id) == Some(i as int));
            }
            v.remove(i);
            return ;
        }
        i = i + 1;
    }
    proof {
        assert(!old(v)@.contains(id));
    }
}

/// Every connection id listed for a peer comes from a row of that peer.
proof fn lemma_conn_ids_subset(rows: Seq<ConnectionEntry>, peer: PeerId)
    ensures
        forall|c: ConnectionId|
            #[trigger] conn_ids_of(rows, peer).contains(c) ==> exists|i: int|
                0 <= i < rows.len() && (#[trigger] rows[i]).peer == peer && rows[i].connection
                    == c,
    decreases rows.len(),
{
    if rows.len() > 0 {
        lemma_conn_ids_subset(rows.drop_last(), peer);
        assert forall|c: ConnectionId| #[trigger] conn_ids_of(rows, peer).contains(c) implies exists|
            i: int,
        |
            0 <= i < rows.len() && (#[trigger] rows[i]).peer == peer && rows[i].connection
                == c by {
            let s = conn_ids_of(rows, peer);
            let pre = conn_ids_of(rows.drop_last(), peer);
            let k = choose|k: int| 0 <= k < s.len() && s[k] == c;
            if k < pre.len() {
                assert(pre[k] == c);
                assert(pre.contains(c));
                let i = choose|i: int|
                    0 <= i < rows.drop_last().len() && (#[trigger] rows.drop_last()[i]).peer
                        == peer && rows.drop_last()[i].connection == c;
                assert(rows[i].peer == peer && rows[i].connection == c);
            } else {
                assert(rows.last().peer == peer && rows.last().connection == c);
                assert(rows[rows.len() - 1].peer == peer);
            }
        }
    }
}

/// Under unique connection ids, a peer's connection list has no repetition.
proof fn lemma_conn_ids_no_dup(rows: Seq<ConnectionEntry>, peer: PeerId)
    requires
        forall|i: int, j: int|
            0 <= i < rows.len() && 0 <= j < rows.len() && i != j ==> (#[trigger] rows[i]).connection
                != (#[trigger] rows[j]).connection,
    ensures
        forall|k1: int, k2: int|
            0 <= k1 < conn_ids_of(rows, peer).len() && 0 <= k2 < conn_ids_of(rows, peer).len() && k1
                != k2 ==> conn_ids_of(rows, peer)[k1] != conn_ids_of(rows, peer)[k2],
    decreases rows.len(),
{
    if rows.len() > 0 {
        let pre = rows.drop_last();
        lemma_conn_ids_no_dup(pre, peer);
        lemma_conn_ids_subset(pre, peer);
        let s = conn_ids_of(rows, peer);
        let ps = conn_ids_of(pre, peer);
        assert forall|k1: int, k2: int|
            0 <= k1 < s.len() && 0 <= k2 < s.len() && k1 != k2 implies s[k1] != s[k2] by {
            if rows.last().peer == peer {
                if k1 < ps.len() && k2 < ps.len() {
                } else {
                    let kin = if k1 < ps.len() { k1 } else { k2 };
                    if kin < ps.len() {
                        assert(ps.contains(ps[kin]));
                        let i = choose|i: int|
                            0 <= i < pre.len() && (#[trigger] pre[i]).peer == peer
                                && pre[i].connection == ps[kin];
                        assert(rows[i].connection == ps[kin]);
                        assert(rows[rows.len() - 1].connection == rows.last().connection);
                    }
                }
            }
        }
    }
}

/// The first connection id of a row block whose first row is of `peer`.
proof fn lemma_conn_ids_first(rows: Seq<ConnectionEntry>, peer: PeerId)
    requires
        rows.len() > 0,
        rows[0].peer == peer,
    ensures
        conn_ids_of(rows, peer).len() > 0,
        conn_ids_of(rows, peer)[0] == rows[0].connection,
    decreases rows.len(),
{
    if rows.len() == 1 {
        assert(conn_ids_of(rows.drop_last(), peer) =~= Seq::<ConnectionId>::empty());
        assert(conn_ids_of(rows, peer) =~= seq![rows[0].connection]);
    } else {
        lemma_conn_ids_first(rows.drop_last(), peer);
    }
}

/// Whether `v` holds `p`.
fn vec_contains_peer(v: &Vec<PeerId>, p: PeerId) -> (r: bool)
    ensures
        r == v@.contains(p),
{
    let mut i: usize = 0;
    while i < v.len()
        invariant
            i <= v@.len(),
            forall|k: int| 0 <= k < i ==> v@[k] != p,
        decreases v@.len() - i,
    {
        if v[i] == p {
            return true;
        }
        i = i + 1;
    }
    false
}

/// A prefix with no row of `peer` contributes no connection ids.
proof fn lemma_conn_ids_empty(rows: Seq<ConnectionEntry>, peer: PeerId)
    requires
        forall|k: int| 0 <= k < rows.len() ==> (#[trigger] rows[k]).peer != peer,
    ensures
        conn_ids_of(rows, peer) == Seq::<ConnectionId>::empty(),
    decreases rows.len(),
{
    if rows.len() > 0 {
        lemma_conn_ids_empty(rows.drop_last(), peer);
        assert(conn_ids_of(rows, peer) =~= Seq::<ConnectionId>::empty());
    }
}

/// A sequence of rows holds a row of `peer` exactly when it contributes a
/// connection id for `peer`.
proof fn lemma_rows_with_peer_iff_conn_ids(rows: Seq<ConnectionEntry>, peer: PeerId)
    ensures
        (exists|i: int| 0 <= i < rows.len() && (#[trigger] rows[i]).peer == peer)
            <==> conn_ids_of(rows, peer).len() > 0,
    decreases rows.len(),
{
    if rows.len() > 0 {
        lemma_rows_with_peer_iff_conn_ids(rows.drop_last(), peer);
        if rows.last().peer == peer {
            assert(rows[rows.len() - 1].peer == peer);
        } else {
            assert forall|i: int|
                0 <= i < rows.len() && (#[trigger] rows[i]).peer == peer implies conn_ids_of(
                rows,
                peer,
            ).len() > 0 by {
                assert(rows.drop_last()[i] == rows[i]);
            }
        }
    }
}

} // verus!
