//! Connection bookkeeping for the TCP ingestion engine.
//!
//! The registry owns the identity-to-id map, the blacklist, the list
//! of live connections and their health records, and the active
//! counter. The surrounding acceptor and watchdog tasks drive it with
//! plain values; every decision — admit, replace, reject, kill — is
//! made here, under the invariants that an identity keeps its numeric
//! id forever and that the active counter always equals the number of
//! live connection records.

use vstd::prelude::*;

verus! {

/// Health of one live connection, updated on every read.
#[derive(Debug, Clone)]
pub struct ConnectionHealth {
    pub ip: String,
    pub conn_id: u64,
    /// When data last arrived, in nanoseconds.
    pub last_data_ns: u64,
    pub total_bytes: u64,
    pub packet_count: u64,
    pub is_alive: bool,
    pub last_error: Option<String>,
}

/// A snapshot of the engine's connection counters.
#[derive(Debug, Clone)]
pub struct ConnectionStats {
    pub active_connections: u64,
    pub total_connections: u64,
    pub last_data_time: u64,
    pub server_status: String,
    pub plc_status: String,
}

/// The numeric id the ordered bindings assign to `ip`, if any.
pub open spec fn id_lookup(bindings: Seq<(String, u64)>, ip: Seq<char>) -> Option<u64>
    decreases bindings.len(),
{
    if bindings.len() == 0 {
        None
    } else if bindings.first().0@ == ip {
        Some(bindings.first().1)
    } else {
        id_lookup(bindings.drop_first(), ip)
    }
}

/// Whether some entry of `ips` is `ip`.
pub open spec fn contains_ip(ips: Seq<String>, ip: Seq<char>) -> bool {
    exists|i: int| 0 <= i < ips.len() && ips[i]@ == ip
}


/// A health record silent past the inactivity timeout at `now`.
pub open spec fn silent_too_long(h: ConnectionHealth, now: nat) -> bool {
    now > h.last_data_ns + crate::reader::INACTIVITY_TIMEOUT_NS
}

/// A health record silent past half the timeout but not yet dead.
pub open spec fn silent_warning(h: ConnectionHealth, now: nat) -> bool {
    now > h.last_data_ns + crate::reader::INACTIVITY_TIMEOUT_NS / 2 && !silent_too_long(h, now)
}

/// The identities of the records the watchdog must kill, in order.
pub open spec fn dead_ips(health: Seq<ConnectionHealth>, now: nat) -> Seq<Seq<char>>
    decreases health.len(),
{
    if health.len() == 0 {
        Seq::<Seq<char>>::empty()
    } else {
        (if silent_too_long(health.first(), now) {
            seq![health.first().ip@]
        } else {
            Seq::<Seq<char>>::empty()
        }) + dead_ips(health.drop_first(), now)
    }
}

/// The identities the watchdog only warns about, in order.
pub open spec fn slow_ips(health: Seq<ConnectionHealth>, now: nat) -> Seq<Seq<char>>
    decreases health.len(),
{
    if health.len() == 0 {
        Seq::<Seq<char>>::empty()
    } else {
        (if silent_warning(health.first(), now) {
            seq![health.first().ip@]
        } else {
            Seq::<Seq<char>>::empty()
        }) + slow_ips(health.drop_first(), now)
    }
}

/// The views of a vector of identities.
pub open spec fn ips_view(ips: Seq<String>) -> Seq<Seq<char>> {
    ips.map(|_i: int, s: String| s@)
}

/// What the acceptor should do with an incoming connection.
#[derive(Debug)]
pub enum AcceptDecision {
    /// The identity is blacklisted: drop the socket.
    Rejected,
    /// Admitted. `replaced_existing` tells the acceptor to abort the
    /// old task for this identity first: the new socket wins.
    Accepted { conn_id: u64, replaced_existing: bool },
}

/// Registry of PLC connections: identity → id bindings (never
/// forgotten), the blacklist, live connections with health records,
/// and the active counter.
#[derive(Debug)]
pub struct ConnectionRegistry {
    pub is_running: bool,
    pub next_id: u64,
    pub ip_ids: Vec<(String, u64)>,
    pub connected: Vec<String>,
    pub health: Vec<ConnectionHealth>,
    pub blacklist: Vec<String>,
    pub active_connections: u64,
}

impl ConnectionRegistry {
    /// The id assigned to `ip`, if it ever connected.
    pub open spec fn id_of(&self, ip: Seq<char>) -> Option<u64> {
        id_lookup(self.ip_ids@, ip)
    }

    /// Whether a connection record for `ip` is live.
    pub open spec fn is_connected(&self, ip: Seq<char>) -> bool {
        contains_ip(self.connected@, ip)
    }

    /// Whether `ip` is currently denied acceptance.
    pub open spec fn is_blacklisted(&self, ip: Seq<char>) -> bool {
        contains_ip(self.blacklist@, ip)
    }

    /// Well-formedness: one record and one health entry per live
    /// identity, the counter equal to the record count, every live
    /// identity bound to an id, and all bound ids below the next to
    /// be assigned.
    pub open spec fn wf(&self) -> bool {
        &&& self.connected@.len() == self.health@.len()
        &&& forall|i: int|
            0 <= i < self.connected@.len() ==> (#[trigger] self.health@[i]).ip@
                == self.connected@[i]@
        &&& forall|i: int, j: int|
            0 <= i < j < self.connected@.len() ==> (#[trigger] self.connected@[i])@ != (
            #[trigger] self.connected@[j])@
        &&& self.active_connections as nat == self.connected@.len()
        &&& forall|i: int|
            0 <= i < self.connected@.len() ==> id_lookup(
                self.ip_ids@,
                (#[trigger] self.connected@[i])@,
            ) is Some
        &&& forall|i: int, j: int|
            0 <= i < j < self.ip_ids@.len() ==> (#[trigger] self.ip_ids@[i]).0@ != (
            #[trigger] self.ip_ids@[j]).0@
        &&& forall|i: int| 0 <= i < self.ip_ids@.len() ==> (#[trigger] self.ip_ids@[i]).1
            < self.next_id
        &&& self.next_id >= 1
    }

    /// Once an identity has an id, no operation may change it.
    pub open spec fn ids_preserved(old_r: &ConnectionRegistry, new_r: &ConnectionRegistry) -> bool {
        forall|ip: Seq<char>|
            (#[trigger] old_r.id_of(ip)) is Some ==> new_r.id_of(ip) == old_r.id_of(ip)
    }

    /// An empty, stopped registry; ids start at one.
    pub fn new() -> (r: ConnectionRegistry)
        ensures
            r.wf(),
            !r.is_running,
            r.next_id == 1,
            r.ip_ids@.len() == 0,
            r.connected@.len() == 0,
            r.blacklist@.len() == 0,
            r.active_connections == 0,
    {
        ConnectionRegistry {
            is_running: false,
            next_id: 1,
            ip_ids: Vec::new(),
            connected: Vec::new(),
            health: Vec::new(),
            blacklist: Vec::new(),
            active_connections: 0,
        }
    }

    /// Marks the engine running. `false` when it already was.
    pub fn start(&mut self) -> (r: bool)
        requires
            old(self).wf(),
        ensures
            final(self).wf(),
            r == !old(self).is_running,
            final(self).is_running,
            final(self).ip_ids@ == old(self).ip_ids@,
            final(self).connected@ == old(self).connected@,
            final(self).blacklist@ == old(self).blacklist@,
            final(self).next_id == old(self).next_id,
    {
        let was = self.is_running;
        self.is_running = true;
        !was
    }

    /// Stops the engine: every connection record is dropped, the
    /// counter returns to zero, and identities keep their ids.
    pub fn stop(&mut self)
        requires
            old(self).wf(),
        ensures
            final(self).wf(),
            !final(self).is_running,
            final(self).connected@.len() == 0,
            final(self).active_connections == 0,
            final(self).ip_ids@ == old(self).ip_ids@,
            final(self).blacklist@ == old(self).blacklist@,
            final(self).next_id == old(self).next_id,
            Self::ids_preserved(old(self), final(self)),
    {
        self.is_running = false;
        self.connected.clear();
        self.health.clear();
        self.active_connections = 0;
    }

    /// Finds `ip` in the live connections.
    fn find_connected(&self, ip: &str) -> (r: Option<usize>)
        requires
            self.wf(),
        ensures
            match r {
                Some(i) => i < self.connected@.len() && self.connected@[i as int]@ == ip@,
                None => !self.is_connected(ip@),
            },
    {
        let mut i: usize = 0;
        while i < self.connected.len()
            invariant
                0 <= i <= self.connected@.len(),
                forall|j: int| 0 <= j < i ==> (#[trigger] self.connected@[j])@ != ip@,
            decreases self.connected@.len() - i,
        {
            if crate::parser::str_eq(self.connected[i].as_str(), ip) {
                return Some(i);
            }
            i = i + 1;
        }
        None
    }

    /// Finds `ip` in the blacklist.
    fn find_blacklisted(&self, ip: &str) -> (r: Option<usize>)
        ensures
            match r {
                Some(i) => i < self.blacklist@.len() && self.blacklist@[i as int]@ == ip@,
                None => !self.is_blacklisted(ip@),
            },
    {
        let mut i: usize = 0;
        while i < self.blacklist.len()
            invariant
                0 <= i <= self.blacklist@.len(),
                forall|j: int| 0 <= j < i ==> (#[trigger] self.blacklist@[j])@ != ip@,
            decreases self.blacklist@.len() - i,
        {
            if crate::parser::str_eq(self.blacklist[i].as_str(), ip) {
                return Some(i);
            }
            i = i + 1;
        }
        None
    }

    /// The id already bound to `ip`, if any.
    fn find_id(&self, ip: &str) -> (r: Option<u64>)
        ensures
            r == self.id_of(ip@),
    {
        proof {
            assert(self.ip_ids@.skip(0) =~= self.ip_ids@);
        }
        let mut i: usize = 0;
        while i < self.ip_ids.len()
            invariant
                0 <= i <= self.ip_ids@.len(),
                id_lookup(self.ip_ids@, ip@) == id_lookup(self.ip_ids@.skip(i as int), ip@),
            decreases self.ip_ids@.len() - i,
        {
            proof {
                assert(self.ip_ids@.skip(i as int).first() == self.ip_ids@[i as int]);
                assert(self.ip_ids@.skip(i as int).drop_first() =~= self.ip_ids@.skip(
                    i as int + 1,
                ));
            }
            if crate::parser::str_eq(self.ip_ids[i].0.as_str(), ip) {
                return Some(self.ip_ids[i].1);
            }
            i = i + 1;
        }
        proof {
            assert(self.ip_ids@.skip(self.ip_ids@.len() as int).len() == 0);
        }
        None
    }

    /// Removes the connection record and health entry of `ip`, if one
    /// is live. Single-shot: a second call finds nothing and changes
    /// nothing. Returns whether a record was removed.
    pub fn on_disconnect(&mut self, ip: &str) -> (removed: bool)
        requires
            old(self).wf(),
        ensures
            final(self).wf(),
            removed == old(self).is_connected(ip@),
            !final(self).is_connected(ip@),
            forall|ip2: Seq<char>|
                ip2 != ip@ ==> final(self).is_connected(ip2) == old(self).is_connected(ip2),
            final(self).ip_ids@ == old(self).ip_ids@,
            final(self).blacklist@ == old(self).blacklist@,
            final(self).next_id == old(self).next_id,
            final(self).is_running == old(self).is_running,
            Self::ids_preserved(old(self), final(self)),
            final(self).active_connections as nat == final(self).connected@.len(),
            removed ==> final(self).connected@.len() == old(self).connected@.len() - 1,
            !removed ==> final(self).connected@ == old(self).connected@,
    {
        let found = self.find_connected(ip);
        match found {
            Some(i) => {
                self.connected.remove(i);
                self.health.remove(i);
                self.active_connections = self.active_connections - 1;
                proof {
                    let oldc = old(self).connected@;
                    assert forall|ip2: Seq<char>|
                        ip2 != ip@ implies self.is_connected(ip2) == old(self).is_connected(
                        ip2,
                    ) by {
                        if old(self).is_connected(ip2) {
                            let j = choose|j: int|
                                0 <= j < oldc.len() && oldc[j]@ == ip2;
                            if j < i {
                                assert(self.connected@[j]@ == ip2);
                            } else {
                                assert(j != i);
                                assert(self.connected@[j - 1]@ == ip2);
                            }
                        } else {
                            if self.is_connected(ip2) {
                                let j = choose|j: int|
                                    0 <= j < self.connected@.len() && self.connected@[j]@ == ip2;
                                if j < i {
                                    assert(oldc[j]@ == ip2);
                                } else {
                                    assert(oldc[j + 1]@ == ip2);
                                }
                            }
                        }
                    }
                    assert(!self.is_connected(ip@)) by {
                        if self.is_connected(ip@) {
                            let j = choose|j: int|
                                0 <= j < self.connected@.len() && self.connected@[j]@ == ip@;
                            if j < i {
                                assert(oldc[j]@ == ip@ && oldc[i as int]@ == ip@);
                            } else {
                                assert(oldc[j + 1]@ == ip@ && oldc[i as int]@ == ip@);
                            }
                        }
                    }
                }
                true
            },
            None => false,
        }
    }

    /// Decides about an incoming connection from `ip` at `now_ns`:
    /// blacklisted identities are rejected; otherwise the identity is
    /// admitted under its permanent id — the one it already had, or
    /// the next fresh id — and a fresh health record starts. If a
    /// record for `ip` was still live, the caller must abort the old
    /// task: the new socket wins.
    pub fn on_accept(&mut self, ip: &str, now_ns: u64) -> (d: AcceptDecision)
        requires
            old(self).wf(),
            old(self).next_id < 0xFFFF_FFFF_FFFF_FFFF,
        ensures
            final(self).wf(),
            Self::ids_preserved(old(self), final(self)),
            final(self).blacklist@ == old(self).blacklist@,
            final(self).is_running == old(self).is_running,
            old(self).is_blacklisted(ip@) ==> d is Rejected && *final(self) == *old(self),
            !old(self).is_blacklisted(ip@) ==> match d {
                AcceptDecision::Rejected => false,
                AcceptDecision::Accepted { conn_id, replaced_existing } => {
                    &&& final(self).id_of(ip@) == Some(conn_id)
                    &&& (match old(self).id_of(ip@) {
                        Some(existing) => conn_id == existing && final(self).next_id == old(
                            self,
                        ).next_id && final(self).ip_ids@ == old(self).ip_ids@,
                        None => conn_id == old(self).next_id && final(self).next_id == old(
                            self,
                        ).next_id + 1 && final(self).ip_ids@.len() == old(self).ip_ids@.len()
                            + 1,
                    })
                    &&& (forall|ip2: Seq<char>|
                        ip2 != ip@ ==> final(self).id_of(ip2) == old(self).id_of(ip2))
                    &&& replaced_existing == old(self).is_connected(ip@)
                    &&& final(self).is_connected(ip@)
                    &&& (forall|ip2: Seq<char>|
                        ip2 != ip@ ==> final(self).is_connected(ip2) == old(self).is_connected(
                            ip2,
                        ))
                    &&& final(self).active_connections as nat == final(self).connected@.len()
                },
            },
    {
        if self.find_blacklisted(ip).is_some() {
            return AcceptDecision::Rejected;
        }
        // an old record for the same identity is torn down first
        let replaced_existing = self.on_disconnect(ip);
        let ghost pre = *self;
        let ghost after_teardown = *self;
        let conn_id: u64 = match self.find_id(ip) {
            Some(existing) => existing,
            None => {
                let id = self.next_id;
                let ghost old_ids = self.ip_ids@;
                let key = String::from_str(ip);
                self.ip_ids.push((key, id));
                self.next_id = self.next_id + 1;
                proof {
                    let s = self.ip_ids@.last().0;
                    assert(self.ip_ids@ =~= old_ids.push((s, id)));
                    lemma_id_lookup_push_inner(old_ids, s, id, ip@);
                    assert forall|ip2: Seq<char>|
                        (#[trigger] id_lookup(old_ids, ip2)) is Some implies id_lookup(
                        self.ip_ids@,
                        ip2,
                    ) == id_lookup(old_ids, ip2) by {
                        if ip2 != ip@ {
                            lemma_id_lookup_push_other_inner(old_ids, s, id, ip2, ip@);
                        } else {
                            lemma_id_lookup_none_absent(old_ids, ip2);
                        }
                    }
                    assert forall|ip2: Seq<char>| ip2 != ip@ implies #[trigger] id_lookup(
                        self.ip_ids@,
                        ip2,
                    ) == id_lookup(old_ids, ip2) by {
                        lemma_id_lookup_push_other_inner(old_ids, s, id, ip2, ip@);
                    }
                    lemma_id_lookup_none_absent(old_ids, ip@);
                }
                id
            },
        };
        proof {
            // the id bindings stay unique and below the next id, and
            // every live identity still resolves
            assert(self.id_of(ip@) == Some(conn_id));
            assert forall|i: int, j: int|
                0 <= i < j < self.ip_ids@.len() implies (#[trigger] self.ip_ids@[i]).0@ != (
                #[trigger] self.ip_ids@[j]).0@ by {
                if j == self.ip_ids@.len() - 1 && self.ip_ids@.len() > pre.ip_ids@.len() {
                    lemma_id_lookup_none_absent(pre.ip_ids@, ip@);
                }
            }
            assert forall|i: int|
                0 <= i < self.connected@.len() implies id_lookup(
                self.ip_ids@,
                (#[trigger] self.connected@[i])@,
            ) is Some by {
                assert(id_lookup(pre.ip_ids@, self.connected@[i]@) is Some);
            }
            assert(self.wf());
        }
        let ghost mid = *self;
        let health = ConnectionHealth {
            ip: String::from_str(ip),
            conn_id,
            last_data_ns: now_ns,
            total_bytes: 0,
            packet_count: 0,
            is_alive: true,
            last_error: None,
        };
        let entry = String::from_str(ip);
        self.connected.push(entry);
        self.health.push(health);
        self.active_connections = self.connected.len() as u64;
        proof {
            assert(self.connected@ =~= mid.connected@.push(self.connected@.last()));
            assert(self.is_connected(ip@)) by {
                assert(self.connected@[self.connected@.len() - 1]@ == ip@);
            }
            assert forall|ip2: Seq<char>|
                ip2 != ip@ implies self.is_connected(ip2) == mid.is_connected(ip2) by {
                if mid.is_connected(ip2) {
                    let j = choose|j: int|
                        0 <= j < mid.connected@.len() && mid.connected@[j]@ == ip2;
                    assert(self.connected@[j]@ == ip2);
                } else {
                    if self.is_connected(ip2) {
                        let j = choose|j: int|
                            0 <= j < self.connected@.len() && self.connected@[j]@ == ip2;
                        assert(j < mid.connected@.len());
                        assert(mid.connected@[j]@ == ip2);
                    }
                }
            }
            assert(mid.connected@ == after_teardown.connected@);
            assert forall|ip2: Seq<char>|
                ip2 != ip@ implies self.is_connected(ip2) == old(self).is_connected(ip2) by {
                assert(after_teardown.is_connected(ip2) == old(self).is_connected(ip2));
                assert(mid.is_connected(ip2) == after_teardown.is_connected(ip2));
            }
            // the pushed identity was not live, so uniqueness holds
            assert forall|i: int, j: int|
                0 <= i < j < self.connected@.len() implies (#[trigger] self.connected@[i])@ != (
                #[trigger] self.connected@[j])@ by {
                if j == self.connected@.len() - 1 {
                    assert(!mid.is_connected(ip@));
                    assert(self.connected@[i]@ == mid.connected@[i]@);
                }
            }
            assert(self.wf());
        }
        AcceptDecision::Accepted { conn_id, replaced_existing }
    }
}

/// An identity that resolves to nothing appears in no binding.
proof fn lemma_id_lookup_none_absent(bindings: Seq<(String, u64)>, q: Seq<char>)
    requires
        id_lookup(bindings, q) is None,
    ensures
        forall|i: int| 0 <= i < bindings.len() ==> (#[trigger] bindings[i]).0@ != q,
    decreases bindings.len(),
{
    if bindings.len() > 0 {
        lemma_id_lookup_none_absent(bindings.drop_first(), q);
        assert forall|i: int| 0 <= i < bindings.len() implies (#[trigger] bindings[i]).0@
            != q by {
            if i > 0 {
                assert(bindings.drop_first()[i - 1] == bindings[i]);
            }
        }
    }
}

/// Looking up the identity just pushed finds its id when it was
/// absent before.
proof fn lemma_id_lookup_push_inner(bindings: Seq<(String, u64)>, s: String, id: u64, q: Seq<char>)
    requires
        id_lookup(bindings, q) is None,
        s@ == q,
    ensures
        id_lookup(bindings.push((s, id)), q) == Some(id),
    decreases bindings.len(),
{
    if bindings.len() == 0 {
        assert(bindings.push((s, id)).first() == (s, id));
    } else {
        assert(bindings.push((s, id)).first() == bindings.first());
        assert(bindings.push((s, id)).drop_first() =~= bindings.drop_first().push((s, id)));
        lemma_id_lookup_push_inner(bindings.drop_first(), s, id, q);
    }
}

/// Pushing a new binding never changes the id of another identity.
proof fn lemma_id_lookup_push_other_inner(
    bindings: Seq<(String, u64)>,
    s: String,
    id: u64,
    q: Seq<char>,
    ip: Seq<char>,
)
    requires
        q != ip,
        s@ == ip,
    ensures
        id_lookup(bindings.push((s, id)), q) == id_lookup(bindings, q),
    decreases bindings.len(),
{
    if bindings.len() == 0 {
        assert(bindings.push((s, id)).first() == (s, id));
        assert(bindings.push((s, id)).drop_first() =~= Seq::<(String, u64)>::empty());
        assert(id_lookup(Seq::<(String, u64)>::empty(), q) is None);
    } else {
        assert(bindings.push((s, id)).first() == bindings.first());
        assert(bindings.push((s, id)).drop_first() =~= bindings.drop_first().push((s, id)));
        lemma_id_lookup_push_other_inner(bindings.drop_first(), s, id, q, ip);
    }
}

/// Id preservation composes: across any sequence of registry
/// operations, each of which preserves assigned ids, an identity's id
/// is constant.
pub proof fn lemma_ids_preserved_trans(
    a: &ConnectionRegistry,
    b: &ConnectionRegistry,
    c: &ConnectionRegistry,
)
    requires
        ConnectionRegistry::ids_preserved(a, b),
        ConnectionRegistry::ids_preserved(b, c),
    ensures
        ConnectionRegistry::ids_preserved(a, c),
{
}

/// Disconnecting, lifting the blacklist and reconnecting restores the
/// identity-to-id mapping: with every step preserving assigned ids and
/// the final accept reusing the id it finds, the id equals the one
/// first assigned.
pub proof fn lemma_reconnect_same_id(
    s0: &ConnectionRegistry,
    s1: &ConnectionRegistry,
    s2: &ConnectionRegistry,
    ip: Seq<char>,
    first_id: u64,
    reconnect_id: u64,
)
    requires
        s0.id_of(ip) == Some(first_id),
        ConnectionRegistry::ids_preserved(s0, s1),
        ConnectionRegistry::ids_preserved(s1, s2),
        match s1.id_of(ip) {
            Some(existing) => reconnect_id == existing,
            None => false,
        },
    ensures
        reconnect_id == first_id,
{
}

impl ConnectionRegistry {
    /// Admin disconnect: the identity is blacklisted until
    /// `allow_reconnect`, and any live record is torn down. Returns
    /// whether a live connection was found.
    pub fn disconnect_client(&mut self, ip: &str) -> (was_connected: bool)
        requires
            old(self).wf(),
        ensures
            final(self).wf(),
            Self::ids_preserved(old(self), final(self)),
            final(self).ip_ids@ == old(self).ip_ids@,
            final(self).next_id == old(self).next_id,
            final(self).is_blacklisted(ip@),
            !final(self).is_connected(ip@),
            was_connected == old(self).is_connected(ip@),
            forall|ip2: Seq<char>|
                ip2 != ip@ ==> final(self).is_connected(ip2) == old(self).is_connected(ip2),
            forall|ip2: Seq<char>|
                ip2 != ip@ ==> final(self).is_blacklisted(ip2) == old(self).is_blacklisted(ip2),
            final(self).active_connections as nat == final(self).connected@.len(),
    {
        if self.find_blacklisted(ip).is_none() {
            let ghost before = *self;
            let entry = String::from_str(ip);
            self.blacklist.push(entry);
            proof {
                assert(self.blacklist@ =~= before.blacklist@.push(self.blacklist@.last()));
                assert(self.is_blacklisted(ip@)) by {
                    assert(self.blacklist@[self.blacklist@.len() - 1]@ == ip@);
                }
                assert forall|ip2: Seq<char>|
                    ip2 != ip@ implies self.is_blacklisted(ip2) == before.is_blacklisted(
                    ip2,
                ) by {
                    if before.is_blacklisted(ip2) {
                        let j = choose|j: int|
                            0 <= j < before.blacklist@.len() && before.blacklist@[j]@ == ip2;
                        assert(self.blacklist@[j]@ == ip2);
                    } else {
                        if self.is_blacklisted(ip2) {
                            let j = choose|j: int|
                                0 <= j < self.blacklist@.len() && self.blacklist@[j]@ == ip2;
                            assert(j < before.blacklist@.len());
                            assert(before.blacklist@[j]@ == ip2);
                        }
                    }
                }
            }
        }
        self.on_disconnect(ip)
    }

    /// Lifts the blacklist for `ip` — nothing else. Returns whether it
    /// was blacklisted.
    pub fn allow_reconnect(&mut self, ip: &str) -> (was_blacklisted: bool)
        requires
            old(self).wf(),
        ensures
            final(self).wf(),
            Self::ids_preserved(old(self), final(self)),
            final(self).ip_ids@ == old(self).ip_ids@,
            final(self).next_id == old(self).next_id,
            final(self).connected@ == old(self).connected@,
            was_blacklisted == old(self).is_blacklisted(ip@),
            !final(self).is_blacklisted(ip@),
            forall|ip2: Seq<char>|
                ip2 != ip@ ==> final(self).is_blacklisted(ip2) == old(self).is_blacklisted(ip2),
    {
        let mut found = false;
        loop
            invariant_except_break
                self.wf(),
                self.ip_ids@ == old(self).ip_ids@,
                self.connected@ == old(self).connected@,
                self.health@ == old(self).health@,
                self.active_connections == old(self).active_connections,
                self.is_running == old(self).is_running,
                self.next_id == old(self).next_id,
                found ==> old(self).is_blacklisted(ip@),
                !found ==> self.blacklist@ == old(self).blacklist@,
                found ==> forall|ip2: Seq<char>|
                    ip2 != ip@ ==> self.is_blacklisted(ip2) == old(self).is_blacklisted(ip2),
                found ==> !self.is_blacklisted(ip@) || old(self).is_blacklisted(ip@),
            ensures
                self.wf(),
                self.ip_ids@ == old(self).ip_ids@,
                self.connected@ == old(self).connected@,
                self.health@ == old(self).health@,
                self.active_connections == old(self).active_connections,
                self.is_running == old(self).is_running,
                self.next_id == old(self).next_id,
                found == old(self).is_blacklisted(ip@),
                !self.is_blacklisted(ip@),
                forall|ip2: Seq<char>|
                    ip2 != ip@ ==> self.is_blacklisted(ip2) == old(self).is_blacklisted(ip2),
            decreases self.blacklist@.len(),
        {
            let hit = self.find_blacklisted(ip);
            match hit {
                None => {
                    proof {
                        if !found {
                            assert(!old(self).is_blacklisted(ip@));
                        }
                    }
                    break ;
                },
                Some(i) => {
                    let ghost before = self.blacklist@;
                    self.blacklist.remove(i);
                    found = true;
                    proof {
                        assert forall|ip2: Seq<char>|
                            ip2 != ip@ implies self.is_blacklisted(ip2) == contains_ip(
                            before,
                            ip2,
                        ) by {
                            if contains_ip(before, ip2) {
                                let j = choose|j: int|
                                    0 <= j < before.len() && before[j]@ == ip2;
                                if j < i {
                                    assert(self.blacklist@[j]@ == ip2);
                                } else {
                                    assert(j != i);
                                    assert(self.blacklist@[j - 1]@ == ip2);
                                }
                            } else {
                                if self.is_blacklisted(ip2) {
                                    let j = choose|j: int|
                                        0 <= j < self.blacklist@.len() && self.blacklist@[j]@
                                            == ip2;
                                    if j < i {
                                        assert(before[j]@ == ip2);
                                    } else {
                                        assert(before[j + 1]@ == ip2);
                                    }
                                }
                            }
                        }
                        assert(contains_ip(before, ip@)) by {
                            assert(before[i as int]@ == ip@);
                        }
                    }
                },
            }
        }
        found
    }

    /// Updates the health record of `ip` after a read — data arrival
    /// time, byte and packet totals, liveness — touching nothing
    /// else. Without a live record nothing changes.
    pub fn record_data(&mut self, ip: &str, now_ns: u64, total_bytes: u64, packet_count: u64)
        requires
            old(self).wf(),
        ensures
            final(self).wf(),
            Self::ids_preserved(old(self), final(self)),
            final(self).ip_ids@ == old(self).ip_ids@,
            final(self).next_id == old(self).next_id,
            final(self).connected@ == old(self).connected@,
            final(self).blacklist@ == old(self).blacklist@,
            !old(self).is_connected(ip@) ==> final(self).health@ == old(self).health@,
            old(self).is_connected(ip@) ==> exists|i: int|
                {
                    &&& 0 <= i < old(self).health@.len()
                    &&& (#[trigger] old(self).health@[i]).ip@ == ip@
                    &&& final(self).health@ == old(self).health@.update(
                        i,
                        ConnectionHealth {
                            ip: final(self).health@[i].ip,
                            conn_id: old(self).health@[i].conn_id,
                            last_data_ns: now_ns,
                            total_bytes,
                            packet_count,
                            is_alive: true,
                            last_error: None,
                        },
                    )
                    &&& final(self).health@[i].ip@ == ip@
                },
    {
        let found = self.find_connected(ip);
        match found {
            Some(i) => {
                let updated = ConnectionHealth {
                    ip: self.health[i].ip.clone(),
                    conn_id: self.health[i].conn_id,
                    last_data_ns: now_ns,
                    total_bytes,
                    packet_count,
                    is_alive: true,
                    last_error: None,
                };
                self.health.set(i, updated);
                proof {
                    assert(self.health@[i as int].ip@ == ip@);
                    assert(old(self).health@[i as int].ip@ == ip@);
                    assert(self.health@ =~= old(self).health@.update(
                        i as int,
                        self.health@[i as int],
                    ));
                }
            },
            None => {},
        }
    }

    /// Marks the record of `ip` dead with the failure message,
    /// touching nothing else: the last word of a connection that
    /// ended in a read error, kept for reporting until teardown.
    pub fn mark_error(&mut self, ip: &str, message: String)
        requires
            old(self).wf(),
        ensures
            final(self).wf(),
            Self::ids_preserved(old(self), final(self)),
            final(self).ip_ids@ == old(self).ip_ids@,
            final(self).next_id == old(self).next_id,
            final(self).connected@ == old(self).connected@,
            final(self).blacklist@ == old(self).blacklist@,
            !old(self).is_connected(ip@) ==> final(self).health@ == old(self).health@,
            old(self).is_connected(ip@) ==> exists|i: int|
                {
                    &&& 0 <= i < old(self).health@.len()
                    &&& (#[trigger] old(self).health@[i]).ip@ == ip@
                    &&& final(self).health@ == old(self).health@.update(
                        i,
                        ConnectionHealth {
                            ip: final(self).health@[i].ip,
                            last_error: final(self).health@[i].last_error,
                            is_alive: false,
                            ..old(self).health@[i]
                        },
                    )
                    &&& final(self).health@[i].ip@ == ip@
                    &&& final(self).health@[i].last_error matches Some(m) && m@ == message@
                },
    {
        let found = self.find_connected(ip);
        match found {
            Some(i) => {
                let updated = ConnectionHealth {
                    ip: self.health[i].ip.clone(),
                    conn_id: self.health[i].conn_id,
                    last_data_ns: self.health[i].last_data_ns,
                    total_bytes: self.health[i].total_bytes,
                    packet_count: self.health[i].packet_count,
                    is_alive: false,
                    last_error: Some(message),
                };
                self.health.set(i, updated);
                proof {
                    assert(self.health@[i as int].ip@ == ip@);
                    assert(old(self).health@[i as int].ip@ == ip@);
                    assert(self.health@ =~= old(self).health@.update(
                        i as int,
                        ConnectionHealth {
                            ip: self.health@[i as int].ip,
                            last_error: self.health@[i as int].last_error,
                            is_alive: false,
                            ..old(self).health@[i as int]
                        },
                    ));
                }
            },
            None => {},
        }
    }

    /// The watchdog pass at `now_ns`: connections silent beyond the
    /// inactivity timeout are torn down and reported dead, exactly
    /// those; connections silent beyond half of it are reported slow;
    /// everything else survives untouched.
    pub fn watchdog_scan(&mut self, now_ns: u64) -> (r: (Vec<String>, Vec<String>))
        requires
            old(self).wf(),
        ensures
            final(self).wf(),
            Self::ids_preserved(old(self), final(self)),
            final(self).ip_ids@ == old(self).ip_ids@,
            final(self).next_id == old(self).next_id,
            final(self).blacklist@ == old(self).blacklist@,
            ips_view(r.0@) == dead_ips(old(self).health@, now_ns as nat),
            ips_view(r.1@) == slow_ips(old(self).health@, now_ns as nat),
            forall|ip2: Seq<char>|
                #[trigger] final(self).is_connected(ip2) <==> (old(self).is_connected(ip2)
                    && !contains_ip(r.0@, ip2)),
            final(self).active_connections as nat == final(self).connected@.len(),
    {
        let ghost h0 = self.health@;
        let mut dead: Vec<String> = Vec::new();
        let mut slow: Vec<String> = Vec::new();
        let mut i: usize = 0;
        proof {
            assert(h0.skip(0) =~= h0);
            assert(ips_view(dead@) =~= Seq::<Seq<char>>::empty());
            assert(ips_view(slow@) =~= Seq::<Seq<char>>::empty());
        }
        while i < self.health.len()
            invariant
                self.wf(),
                *self == *old(self),
                h0 == self.health@,
                0 <= i <= h0.len(),
                dead_ips(h0, now_ns as nat) =~= ips_view(dead@) + dead_ips(
                    h0.skip(i as int),
                    now_ns as nat,
                ),
                slow_ips(h0, now_ns as nat) =~= ips_view(slow@) + slow_ips(
                    h0.skip(i as int),
                    now_ns as nat,
                ),
            decreases h0.len() - i,
        {
            proof {
                assert(h0.skip(i as int).first() == h0[i as int]);
                assert(h0.skip(i as int).drop_first() =~= h0.skip(i as int + 1));
            }
            let silent_ns: u64 = if now_ns >= self.health[i].last_data_ns {
                now_ns - self.health[i].last_data_ns
            } else {
                0
            };
            if silent_ns > crate::reader::INACTIVITY_TIMEOUT_NS {
                let ghost before = ips_view(dead@);
                dead.push(self.health[i].ip.clone());
                proof {
                    assert(ips_view(dead@) =~= before.push(h0[i as int].ip@));
                    assert(ips_view(dead@) + dead_ips(h0.skip(i as int + 1), now_ns as nat)
                        =~= (before + (seq![h0[i as int].ip@] + dead_ips(
                        h0.skip(i as int + 1),
                        now_ns as nat,
                    ))));
                }
            } else if silent_ns > crate::reader::INACTIVITY_TIMEOUT_NS / 2 {
                let ghost before = ips_view(slow@);
                slow.push(self.health[i].ip.clone());
                proof {
                    assert(ips_view(slow@) =~= before.push(h0[i as int].ip@));
                    assert(ips_view(slow@) + slow_ips(h0.skip(i as int + 1), now_ns as nat)
                        =~= (before + (seq![h0[i as int].ip@] + slow_ips(
                        h0.skip(i as int + 1),
                        now_ns as nat,
                    ))));
                }
            }
            i = i + 1;
        }
        proof {
            assert(dead_ips(h0.skip(h0.len() as int), now_ns as nat).len() == 0);
            assert(slow_ips(h0.skip(h0.len() as int), now_ns as nat).len() == 0);
            assert(ips_view(dead@) =~= dead_ips(h0, now_ns as nat));
            assert(ips_view(slow@) =~= slow_ips(h0, now_ns as nat));
        }
        let ghost scanned = *self;
        let mut j: usize = 0;
        while j < dead.len()
            invariant
                self.wf(),
                Self::ids_preserved(&scanned, self),
                self.ip_ids@ == scanned.ip_ids@,
                self.next_id == scanned.next_id,
                self.blacklist@ == scanned.blacklist@,
                0 <= j <= dead@.len(),
                forall|ip2: Seq<char>|
                    #[trigger] self.is_connected(ip2) <==> (scanned.is_connected(ip2)
                        && !contains_ip(dead@.take(j as int), ip2)),
            decreases dead@.len() - j,
        {
            let ghost before = *self;
            self.on_disconnect(dead[j].as_str());
            proof {
                assert(dead@.take(j as int + 1) =~= dead@.take(j as int).push(dead@[j as int]));
                assert forall|ip2: Seq<char>| #[trigger] self.is_connected(ip2) <==> (
                scanned.is_connected(ip2) && !contains_ip(
                    dead@.take(j as int + 1),
                    ip2,
                )) by {
                    let t1 = dead@.take(j as int);
                    let t2 = dead@.take(j as int + 1);
                    if ip2 == dead@[j as int]@ {
                        assert(!self.is_connected(ip2));
                        assert(contains_ip(t2, ip2)) by {
                            assert(t2[j as int]@ == ip2);
                        }
                    } else {
                        assert(self.is_connected(ip2) == before.is_connected(ip2));
                        assert(contains_ip(t2, ip2) == contains_ip(t1, ip2)) by {
                            if contains_ip(t1, ip2) {
                                let k = choose|k: int| 0 <= k < t1.len() && t1[k]@ == ip2;
                                assert(t2[k]@ == ip2);
                            } else if contains_ip(t2, ip2) {
                                let k = choose|k: int| 0 <= k < t2.len() && t2[k]@ == ip2;
                                assert(k < t1.len());
                                assert(t1[k]@ == ip2);
                            }
                        }
                    }
                }
            }
            j = j + 1;
        }
        proof {
            assert(dead@.take(dead@.len() as int) =~= dead@);
        }
        (dead, slow)
    }

    /// Whether `ip` currently has a live connection.
    pub fn has_connection(&self, ip: &str) -> (r: bool)
        requires
            self.wf(),
        ensures
            r == self.is_connected(ip@),
    {
        self.find_connected(ip).is_some()
    }

    /// The current counters: live connections, distinct identities
    /// ever seen, and textual statuses.
    pub fn get_connection_stats(&self, now_secs: u64) -> (s: ConnectionStats)
        requires
            self.wf(),
        ensures
            s.active_connections as nat == self.connected@.len(),
            s.total_connections as nat == self.ip_ids@.len(),
            s.last_data_time == (if self.connected@.len() > 0 {
                now_secs
            } else {
                0
            }),
            s.server_status@ == (if self.is_running {
                "running"@
            } else {
                "stopped"@
            }),
            s.plc_status@ == (if self.connected@.len() > 0 {
                "connected"@
            } else {
                "disconnected"@
            }),
    {
        ConnectionStats {
            active_connections: self.active_connections,
            total_connections: self.ip_ids.len() as u64,
            last_data_time: if self.active_connections > 0 {
                now_secs
            } else {
                0
            },
            server_status: if self.is_running {
                String::from_str("running")
            } else {
                String::from_str("stopped")
            },
            plc_status: if self.active_connections > 0 {
                String::from_str("connected")
            } else {
                String::from_str("disconnected")
            },
        }
    }

    /// The identities with live connections, in accept order.
    pub fn get_connected_clients(&self) -> (r: Vec<String>)
        ensures
            r@.len() == self.connected@.len(),
            forall|i: int| 0 <= i < r@.len() ==> (#[trigger] r@[i])@ == self.connected@[i]@,
    {
        let mut r: Vec<String> = Vec::new();
        let mut i: usize = 0;
        while i < self.connected.len()
            invariant
                0 <= i <= self.connected@.len(),
                r@.len() == i,
                forall|j: int| 0 <= j < i ==> (#[trigger] r@[j])@ == self.connected@[j]@,
            decreases self.connected@.len() - i,
        {
            r.push(self.connected[i].clone());
            i = i + 1;
        }
        r
    }

    /// Every identity ever seen, with its status: `blocked`,
    /// `connected` or `disconnected`.
    pub fn get_all_known_plcs(&self) -> (r: Vec<(String, String)>)
        requires
            self.wf(),
        ensures
            r@.len() == self.ip_ids@.len(),
            forall|i: int|
                0 <= i < r@.len() ==> (#[trigger] r@[i]).0@ == self.ip_ids@[i].0@ && r@[i].1@ == (
                if self.is_blacklisted(self.ip_ids@[i].0@) {
                    "blocked"@
                } else if self.is_connected(self.ip_ids@[i].0@) {
                    "connected"@
                } else {
                    "disconnected"@
                }),
    {
        let mut r: Vec<(String, String)> = Vec::new();
        let mut i: usize = 0;
        while i < self.ip_ids.len()
            invariant
                self.wf(),
                0 <= i <= self.ip_ids@.len(),
                r@.len() == i,
                forall|j: int|
                    0 <= j < i ==> (#[trigger] r@[j]).0@ == self.ip_ids@[j].0@ && r@[j].1@ == (
                    if self.is_blacklisted(self.ip_ids@[j].0@) {
                        "blocked"@
                    } else if self.is_connected(self.ip_ids@[j].0@) {
                        "connected"@
                    } else {
                        "disconnected"@
                    }),
            decreases self.ip_ids@.len() - i,
        {
            let ip = self.ip_ids[i].0.clone();
            let status: String = if self.find_blacklisted(ip.as_str()).is_some() {
                String::from_str("blocked")
            } else if self.find_connected(ip.as_str()).is_some() {
                String::from_str("connected")
            } else {
                String::from_str("disconnected")
            };
            r.push((ip, status));
            i = i + 1;
        }
        r
    }
}

/// One chain step preserves assigned ids.
pub open spec fn step_preserves_ids(a: ConnectionRegistry, b: ConnectionRegistry) -> bool {
    ConnectionRegistry::ids_preserved(&a, &b)
}

/// Identity stability over any run: when every step of a chain of
/// registry states preserves assigned ids — as every operation here
/// does — an id assigned in the first state still stands in the last.
pub proof fn lemma_identity_stable_over_run(
    states: Seq<ConnectionRegistry>,
    ip: Seq<char>,
    id: u64,
)
    requires
        states.len() >= 1,
        forall|i: int|
            0 <= i < states.len() - 1 ==> #[trigger] step_preserves_ids(
                states[i],
                states[i + 1],
            ),
        states.first().id_of(ip) == Some(id),
    ensures
        states.last().id_of(ip) == Some(id),
    decreases states.len(),
{
    if states.len() > 1 {
        let tail = states.drop_first();
        let zero: int = 0;
        assert(0 <= zero < states.len() - 1);
        assert(step_preserves_ids(states[zero], states[zero + 1]));
        assert(step_preserves_ids(states[0], states[1]));
        assert(tail.first() == states[1]);
        assert forall|i: int|
            0 <= i < tail.len() - 1 implies #[trigger] step_preserves_ids(
            tail[i],
            tail[i + 1],
        ) by {
            assert(tail[i] == states[i + 1]);
            assert(tail[i + 1] == states[i + 2]);
            assert(step_preserves_ids(states[i + 1], states[i + 2]));
        }
        lemma_identity_stable_over_run(tail, ip, id);
        assert(tail.last() == states.last());
    }
}

} // verus!
