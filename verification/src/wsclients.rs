//! Client bookkeeping for the WebSocket broadcaster.
//!
//! The broadcaster owns its clients: admission against the configured
//! limit, globally unique monotonic ids, per-client subscription sets
//! (an empty set means every PLC), and the traffic counters. The
//! accept loops and socket tasks live outside and drive this registry
//! with plain values.

use vstd::prelude::*;

verus! {

/// One connected WebSocket client.
#[derive(Debug, Clone)]
pub struct ConnectedClient {
    pub id: u64,
    pub address: String,
    pub connected_at_secs: u64,
    pub messages_received: u64,
    /// The PLCs this client wants; empty means all of them.
    pub subscribed_plcs: Vec<String>,
}

/// Registry of live WebSocket clients and the broadcaster's counters.
#[derive(Debug)]
pub struct WsClientRegistry {
    pub is_running: bool,
    pub clients: Vec<ConnectedClient>,
    pub total_connections: u64,
    pub messages_sent: u64,
    pub bytes_sent: u64,
    pub max_clients: u32,
}

/// Whether a subscription set admits messages from `origin`: an empty
/// set takes everything.
pub open spec fn subscription_admits(subs: Seq<String>, origin: Seq<char>) -> bool {
    subs.len() == 0 || exists|i: int| 0 <= i < subs.len() && subs[i]@ == origin
}

impl WsClientRegistry {
    /// Whether a client with this id is live.
    pub open spec fn has_client(&self, id: u64) -> bool {
        exists|i: int| 0 <= i < self.clients@.len() && (#[trigger] self.clients@[i]).id == id
    }

    /// Ids are unique and below the running total, and admission kept
    /// the count within the limit.
    pub open spec fn wf(&self) -> bool {
        &&& forall|i: int, j: int|
            0 <= i < j < self.clients@.len() ==> (#[trigger] self.clients@[i]).id != (
            #[trigger] self.clients@[j]).id
        &&& forall|i: int|
            0 <= i < self.clients@.len() ==> (#[trigger] self.clients@[i]).id
                <= self.total_connections
        &&& self.clients@.len() <= self.max_clients
    }

    /// An empty, stopped registry with the given client limit.
    pub fn new(max_clients: u32) -> (r: WsClientRegistry)
        ensures
            r.wf(),
            !r.is_running,
            r.clients@.len() == 0,
            r.total_connections == 0,
            r.max_clients == max_clients,
    {
        WsClientRegistry {
            is_running: false,
            clients: Vec::new(),
            total_connections: 0,
            messages_sent: 0,
            bytes_sent: 0,
            max_clients,
        }
    }

    /// Admission control: a new client is admitted only below the
    /// limit, under the next monotonic id; over the limit the socket
    /// is to be dropped before the handshake. A fresh client
    /// subscribes to nothing, which means everything.
    pub fn try_accept(&mut self, address: String, now_secs: u64) -> (r: Option<u64>)
        requires
            old(self).wf(),
            old(self).total_connections < 0xFFFF_FFFF_FFFF_FFFF,
        ensures
            final(self).wf(),
            r is None <==> old(self).clients@.len() >= old(self).max_clients,
            match r {
                None => final(self).clients@ == old(self).clients@ && final(self).total_connections
                    == old(self).total_connections,
                Some(id) => {
                    &&& id == old(self).total_connections + 1
                    &&& final(self).total_connections == id
                    &&& final(self).clients@.len() == old(self).clients@.len() + 1
                    &&& final(self).clients@.last().id == id
                    &&& final(self).clients@.last().address@ == address@
                    &&& final(self).clients@.last().subscribed_plcs@.len() == 0
                    &&& final(self).clients@.drop_last() == old(self).clients@
                },
            },
    {
        if self.clients.len() >= self.max_clients as usize {
            return None;
        }
        let id = self.total_connections + 1;
        self.total_connections = id;
        let client = ConnectedClient {
            id,
            address,
            connected_at_secs: now_secs,
            messages_received: 0,
            subscribed_plcs: Vec::new(),
        };
        self.clients.push(client);
        proof {
            assert(self.clients@.drop_last() =~= old(self).clients@);
        }
        Some(id)
    }

    /// Finds the client with this id.
    fn find_client(&self, id: u64) -> (r: Option<usize>)
        ensures
            match r {
                Some(i) => i < self.clients@.len() && self.clients@[i as int].id == id,
                None => !self.has_client(id),
            },
    {
        let mut i: usize = 0;
        while i < self.clients.len()
            invariant
                0 <= i <= self.clients@.len(),
                forall|j: int| 0 <= j < i ==> (#[trigger] self.clients@[j]).id != id,
            decreases self.clients@.len() - i,
        {
            if self.clients[i].id == id {
                return Some(i);
            }
            i = i + 1;
        }
        None
    }

    /// Replaces the subscription set of a client, touching nothing
    /// else. `false` when the id is not live.
    pub fn set_subscription(&mut self, id: u64, plcs: Vec<String>) -> (r: bool)
        requires
            old(self).wf(),
        ensures
            final(self).wf(),
            r == old(self).has_client(id),
            final(self).total_connections == old(self).total_connections,
            !r ==> final(self).clients@ == old(self).clients@,
            r ==> exists|i: int|
                {
                    &&& 0 <= i < old(self).clients@.len()
                    &&& (#[trigger] old(self).clients@[i]).id == id
                    &&& final(self).clients@ == old(self).clients@.update(
                        i,
                        ConnectedClient {
                            subscribed_plcs: final(self).clients@[i].subscribed_plcs,
                            address: final(self).clients@[i].address,
                            ..old(self).clients@[i]
                        },
                    )
                    &&& final(self).clients@[i].address@ == old(self).clients@[i].address@
                    &&& final(self).clients@[i].subscribed_plcs@ == plcs@
                },
    {
        let found = self.find_client(id);
        match found {
            Some(i) => {
                let updated = ConnectedClient {
                    id: self.clients[i].id,
                    address: self.clients[i].address.clone(),
                    connected_at_secs: self.clients[i].connected_at_secs,
                    messages_received: self.clients[i].messages_received,
                    subscribed_plcs: plcs,
                };
                self.clients.set(i, updated);
                proof {
                    assert(self.clients@[i as int].id == id);
                    assert(old(self).has_client(id)) by {
                        assert(old(self).clients@[i as int].id == id);
                    }
                    assert(self.clients@ =~= old(self).clients@.update(
                        i as int,
                        ConnectedClient {
                            subscribed_plcs: self.clients@[i as int].subscribed_plcs,
                            address: self.clients@[i as int].address,
                            ..old(self).clients@[i as int]
                        },
                    ));
                }
                true
            },
            None => false,
        }
    }

    /// Whether the client with this id should receive a message from
    /// `origin`: yes when it subscribed to that PLC or to nothing in
    /// particular. An unknown id receives nothing.
    pub fn client_admits(&self, id: u64, origin: &str) -> (r: bool)
        requires
            self.wf(),
        ensures
            match self.find_index_spec(id) {
                Some(i) => r == subscription_admits(
                    self.clients@[i].subscribed_plcs@,
                    origin@,
                ),
                None => r == false,
            },
    {
        let found = self.find_client(id);
        match found {
            Some(i) => {
                proof {
                    self.lemma_find_index_agrees(id, i as int);
                }
                let subs = &self.clients[i].subscribed_plcs;
                if subs.len() == 0 {
                    return true;
                }
                let mut j: usize = 0;
                while j < subs.len()
                    invariant
                        0 <= j <= subs@.len(),
                        i < self.clients@.len(),
                        self.find_index_spec(id) == Some(i as int),
                        subs@ == self.clients@[i as int].subscribed_plcs@,
                        forall|k: int| 0 <= k < j ==> (#[trigger] subs@[k])@ != origin@,
                    decreases subs@.len() - j,
                {
                    if crate::parser::str_eq(subs[j].as_str(), origin) {
                        return true;
                    }
                    j = j + 1;
                }
                false
            },
            None => false,
        }
    }

    /// The position of the client with this id, if live.
    pub open spec fn find_index_spec(&self, id: u64) -> Option<int> {
        if self.has_client(id) {
            Some(
                choose|i: int|
                    0 <= i < self.clients@.len() && (#[trigger] self.clients@[i]).id == id,
            )
        } else {
            None
        }
    }

    /// With unique ids, any found position is the chosen one.
    proof fn lemma_find_index_agrees(&self, id: u64, i: int)
        requires
            self.wf(),
            0 <= i < self.clients@.len(),
            self.clients@[i].id == id,
        ensures
            self.find_index_spec(id) == Some(i),
    {
        assert(self.has_client(id));
        let j = choose|j: int| 0 <= j < self.clients@.len() && (#[trigger] self.clients@[j]).id
            == id;
        if i < j {
            assert(self.clients@[i].id != self.clients@[j].id);
        } else if j < i {
            assert(self.clients@[j].id != self.clients@[i].id);
        }
    }

    /// Counts one inbound message of a client, saturating, touching
    /// nothing else. An unknown id counts nowhere.
    pub fn client_message_received(&mut self, id: u64)
        requires
            old(self).wf(),
        ensures
            final(self).wf(),
            final(self).total_connections == old(self).total_connections,
            !old(self).has_client(id) ==> final(self).clients@ == old(self).clients@,
            old(self).has_client(id) ==> exists|i: int|
                {
                    &&& 0 <= i < old(self).clients@.len()
                    &&& (#[trigger] old(self).clients@[i]).id == id
                    &&& final(self).clients@ == old(self).clients@.update(
                        i,
                        ConnectedClient {
                            messages_received: final(self).clients@[i].messages_received,
                            address: final(self).clients@[i].address,
                            subscribed_plcs: final(self).clients@[i].subscribed_plcs,
                            ..old(self).clients@[i]
                        },
                    )
                    &&& final(self).clients@[i].address@ == old(self).clients@[i].address@
                    &&& final(self).clients@[i].messages_received as nat
                        == crate::reader::sat_add_u64(
                        old(self).clients@[i].messages_received as nat,
                        1,
                    )
                },
    {
        let found = self.find_client(id);
        match found {
            Some(i) => {
                let counted = if self.clients[i].messages_received == 0xFFFF_FFFF_FFFF_FFFF {
                    0xFFFF_FFFF_FFFF_FFFF
                } else {
                    self.clients[i].messages_received + 1
                };
                let updated = ConnectedClient {
                    id: self.clients[i].id,
                    address: self.clients[i].address.clone(),
                    connected_at_secs: self.clients[i].connected_at_secs,
                    messages_received: counted,
                    subscribed_plcs: self.clients[i].subscribed_plcs.clone(),
                };
                self.clients.set(i, updated);
                proof {
                    assert(old(self).clients@[i as int].id == id);
                    assert(self.clients@ =~= old(self).clients@.update(
                        i as int,
                        ConnectedClient {
                            messages_received: self.clients@[i as int].messages_received,
                            address: self.clients@[i as int].address,
                            subscribed_plcs: self.clients@[i as int].subscribed_plcs,
                            ..old(self).clients@[i as int]
                        },
                    ));
                }
            },
            None => {},
        }
    }

    /// Counts one outbound message of `len` bytes, saturating.
    pub fn record_send(&mut self, len: u64)
        ensures
            final(self).clients@ == old(self).clients@,
            final(self).total_connections == old(self).total_connections,
            final(self).max_clients == old(self).max_clients,
            final(self).is_running == old(self).is_running,
            final(self).messages_sent as nat == crate::reader::sat_add_u64(
                old(self).messages_sent as nat,
                1,
            ),
            final(self).bytes_sent as nat == crate::reader::sat_add_u64(
                old(self).bytes_sent as nat,
                len as nat,
            ),
    {
        self.messages_sent = if self.messages_sent == 0xFFFF_FFFF_FFFF_FFFF {
            0xFFFF_FFFF_FFFF_FFFF
        } else {
            self.messages_sent + 1
        };
        self.bytes_sent = if self.bytes_sent as u128 + len as u128 > 0xFFFF_FFFF_FFFF_FFFF {
            0xFFFF_FFFF_FFFF_FFFF
        } else {
            self.bytes_sent + len
        };
    }

    /// Tears one client down. `false` when the id was not live.
    pub fn remove_client(&mut self, id: u64) -> (r: bool)
        requires
            old(self).wf(),
        ensures
            final(self).wf(),
            r == old(self).has_client(id),
            !final(self).has_client(id),
            final(self).total_connections == old(self).total_connections,
            r ==> final(self).clients@.len() == old(self).clients@.len() - 1,
            !r ==> final(self).clients@ == old(self).clients@,
    {
        let found = self.find_client(id);
        match found {
            Some(i) => {
                self.clients.remove(i);
                proof {
                    assert(old(self).has_client(id)) by {
                        assert(old(self).clients@[i as int].id == id);
                    }
                    assert(!self.has_client(id)) by {
                        if self.has_client(id) {
                            let j = choose|j: int|
                                0 <= j < self.clients@.len() && (#[trigger] self.clients@[j]).id
                                    == id;
                            if j < i {
                                assert(old(self).clients@[j].id == id);
                                assert(old(self).clients@[i as int].id == id);
                            } else {
                                assert(old(self).clients@[j + 1].id == id);
                                assert(old(self).clients@[i as int].id == id);
                            }
                        }
                    }
                }
                true
            },
            None => false,
        }
    }

    /// The number of live clients.
    pub fn active_connections(&self) -> (r: u64)
        ensures
            r as nat == self.clients@.len(),
    {
        self.clients.len() as u64
    }

    /// Drops every client and stops the broadcaster; the id counter
    /// keeps running.
    pub fn stop(&mut self)
        requires
            old(self).wf(),
        ensures
            final(self).wf(),
            !final(self).is_running,
            final(self).clients@.len() == 0,
            final(self).total_connections == old(self).total_connections,
    {
        self.is_running = false;
        self.clients.clear();
    }
}

} // verus!
