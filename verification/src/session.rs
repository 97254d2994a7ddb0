//! The sessions of a UDP forward, one per client, dropped when idle; and the
//! timing and sizing of the forwarding tasks.
use vstd::prelude::*;
use crate::keyed::{
    has_key, keyed_map, keys_distinct, lemma_keyed_at, lemma_keyed_len, lemma_keyed_push, lemma_keyed_remove,
    lemma_keyed_update, Keyed,
};


verus! {

/// A UDP session idle for longer than this many seconds is dropped.
pub const SESSION_IDLE_LIMIT_SECS: u64 = 60;

/// How often, in seconds, idle UDP sessions are looked for.
pub const SESSION_SWEEP_INTERVAL_SECS: u64 = 30;

/// The buffer, in bytes, of each direction of a TCP connection.
pub const TCP_BUFFER_BYTES: usize = 8192;

/// The buffer, in bytes, of a UDP socket.
pub const UDP_BUFFER_BYTES: usize = 65535;

/// Whether a UDP session idle for `idle_secs` whole seconds is kept.
pub fn keeps_session(idle_secs: u64) -> (keep: bool)
    ensures
        keep == (idle_secs <= SESSION_IDLE_LIMIT_SECS),
{
    idle_secs <= SESSION_IDLE_LIMIT_SECS
}

/// Nanoseconds in a second.
pub const NANOS_PER_SEC: u64 = 1_000_000_000;

/// Whole seconds from `last` to `now`, both in nanoseconds since the same
/// instant; zero when `last` is later than `now`.
pub open spec fn idle_secs(now: u64, last: u64) -> u64 {
    if now >= last {
        ((now - last) / (NANOS_PER_SEC as int)) as u64
    } else {
        0
    }
}

/// Whether a session last active at `last` is kept at `now`.
pub open spec fn is_live(now: u64, last: u64) -> bool {
    idle_secs(now, last) <= SESSION_IDLE_LIMIT_SECS
}

/// The address of a UDP client, as plain values: the IP address (an IPv4
/// address in its low 32 bits), the port, and for IPv6 the flow information
/// and scope. Two addresses are the same client when all of these agree.
#[derive(Debug, Clone, Copy, PartialEq, Eq, Structural)]
pub struct ClientKey {
    pub v6: bool,
    pub ip: u128,
    pub port: u16,
    pub flowinfo: u32,
    pub scope_id: u32,
}

/// A client's session: the socket that talks to the target for it, and when
/// it was last active, in nanoseconds since the forward began.
pub struct Session<S> {
    pub client: ClientKey,
    pub socket: S,
    pub last_active_ns: u64,
}

/// The sessions of a UDP forward, at most one per client.
pub struct SessionTable<S> {
    sessions: Vec<Session<S>>,
}

impl<S> Keyed for Session<S> {
    type Key = ClientKey;

    open spec fn key(&self) -> ClientKey {
        self.client
    }
}

/// Whether some session of `s` belongs to `k`.
pub open spec fn has_client<S>(s: Seq<Session<S>>, k: ClientKey) -> bool {
    has_key(s, k)
}

/// No two sessions of `s` belong to the same client.
pub open spec fn clients_distinct<S>(s: Seq<Session<S>>) -> bool {
    keys_distinct(s)
}

/// The sessions of `s` keyed by client.
pub open spec fn session_map<S>(s: Seq<Session<S>>) -> Map<ClientKey, Session<S>> {
    keyed_map(s)
}

impl<S> SessionTable<S> {
    /// The sessions, keyed by client.
    pub closed spec fn sessions(&self) -> Map<ClientKey, Session<S>> {
        session_map(self.sessions@)
    }

    /// The table's invariant: at most one session per client.
    pub closed spec fn wf(&self) -> bool {
        clients_distinct(self.sessions@)
    }

    /// No sessions.
    pub fn new() -> (t: Self)
        ensures
            t.wf(),
            t.sessions() == Map::<ClientKey, Session<S>>::empty(),
    {
        let t = SessionTable { sessions: Vec::new() };
        assert(t.sessions() =~= Map::<ClientKey, Session<S>>::empty());
        t
    }

    /// The number of sessions.
    pub fn len(&self) -> (n: usize)
        requires
            self.wf(),
        ensures
            n == self.sessions().len(),
    {
        proof {
            lemma_keyed_len(self.sessions@);
        }
        self.sessions.len()
    }

    fn find(&self, client: ClientKey) -> (r: Option<usize>)
        ensures
            match r {
                Some(i) => i < self.sessions@.len() && self.sessions@[i as int].client == client,
                None => !self.sessions().contains_key(client),
            },
    {
        let mut i: usize = 0;
        while i < self.sessions.len()
            invariant
                i <= self.sessions@.len(),
                forall|j: int| 0 <= j < i ==> #[trigger] self.sessions@[j].client != client,
            decreases self.sessions@.len() - i,
        {
            if self.sessions[i].client == client {
                return Some(i);
            }
            i = i + 1;
        }
        None
    }

    /// The socket of `client`'s session, if it has one.
    pub fn socket_of(&self, client: ClientKey) -> (r: Option<&S>)
        requires
            self.wf(),
        ensures
            r is Some <==> self.sessions().contains_key(client),
            r matches Some(s) ==> *s == self.sessions()[client].socket,
    {
        match self.find(client) {
            Some(i) => {
                proof {
                    lemma_keyed_at(self.sessions@, i as int);
                }
                Some(&self.sessions[i].socket)
            },
            None => None,
        }
    }

    /// Marks `client`'s session, if it has one, active at `now`; says whether
    /// it had one.
    pub fn touch(&mut self, client: ClientKey, now: u64) -> (found: bool)
        requires
            old(self).wf(),
        ensures
            final(self).wf(),
            found == old(self).sessions().contains_key(client),
            final(self).sessions() == if found {
                old(self).sessions().insert(
                    client,
                    Session { last_active_ns: now, ..old(self).sessions()[client] },
                )
            } else {
                old(self).sessions()
            },
    {
        match self.find(client) {
            None => false,
            Some(i) => {
                let ghost s0 = self.sessions@;
                proof {
                    lemma_keyed_at(s0, i as int);
                }
                let mut entry = self.sessions.remove(i);
                entry.last_active_ns = now;
                self.sessions.insert(i, entry);
                let ghost e = entry;
                assert(self.sessions@ =~= s0.update(i as int, e));
                proof {
                    lemma_keyed_update(s0, i as int, e);
                }
                true
            },
        }
    }

    /// Opens a session for `client` with `socket`, active at `now`, replacing
    /// any session it had.
    pub fn insert(&mut self, client: ClientKey, socket: S, now: u64)
        requires
            old(self).wf(),
        ensures
            final(self).wf(),
            final(self).sessions() == old(self).sessions().insert(
                client,
                Session { client, socket, last_active_ns: now },
            ),
            final(self).sessions().len() == old(self).sessions().len() + if old(self).sessions().contains_key(
                client,
            ) {
                0int
            } else {
                1int
            },
    {
        let ghost s0 = self.sessions@;
        let entry = Session { client, socket, last_active_ns: now };
        let ghost e = entry;
        match self.find(client) {
            Some(i) => {
                self.sessions.remove(i);
                self.sessions.insert(i, entry);
                assert(self.sessions@ =~= s0.update(i as int, e));
                proof {
                    lemma_keyed_update(s0, i as int, e);
                }
            },
            None => {
                self.sessions.push(entry);
                assert(self.sessions@ =~= s0.push(e));
                proof {
                    lemma_keyed_push(s0, e);
                }
            },
        }
        proof {
            lemma_keyed_len(s0);
            lemma_keyed_len(self.sessions@);
        }
    }

    /// Drops every session idle for longer than the limit at `now`, and says
    /// how many were dropped.
    pub fn sweep(&mut self, now: u64) -> (removed: usize)
        requires
            old(self).wf(),
        ensures
            final(self).wf(),
            forall|k: ClientKey| #[trigger]
                final(self).sessions().contains_key(k) == (old(self).sessions().contains_key(k) && is_live(
                    now,
                    old(self).sessions()[k].last_active_ns,
                )),
            forall|k: ClientKey| #[trigger]
                final(self).sessions().contains_key(k) ==> final(self).sessions()[k] == old(self).sessions()[k],
            removed == old(self).sessions().len() - final(self).sessions().len(),
    {
        let ghost s0 = self.sessions@;
        let ghost m0 = session_map(s0);
        proof {
            lemma_keyed_len(s0);
        }
        let total = self.sessions.len();
        let mut removed: usize = 0;
        let mut i: usize = 0;
        while i < self.sessions.len()
            invariant
                total == s0.len(),
                i <= self.sessions@.len(),
                clients_distinct(self.sessions@),
                self.sessions@.len() + removed == s0.len(),
                m0 == session_map(s0),
                forall|j: int| 0 <= j < i ==> is_live(now, (#[trigger] self.sessions@[j]).last_active_ns),
                forall|k: ClientKey| #[trigger]
                    session_map(self.sessions@).contains_key(k) ==> m0.contains_key(k) && session_map(
                        self.sessions@,
                    )[k] == m0[k],
                forall|k: ClientKey| #[trigger]
                    m0.contains_key(k) && is_live(now, m0[k].last_active_ns) ==> session_map(
                        self.sessions@,
                    ).contains_key(k),
            decreases self.sessions@.len() - i,
        {
            let last = self.sessions[i].last_active_ns;
            let idle = if now >= last { (now - last) / NANOS_PER_SEC } else { 0 };
            if keeps_session(idle) {
                i = i + 1;
            } else {
                let ghost s = self.sessions@;
                proof {
                    lemma_keyed_at(s, i as int);
                    lemma_keyed_remove(s, i as int);
                }
                self.sessions.remove(i);
                assert(self.sessions@ =~= s.remove(i as int));
                assert forall|k: ClientKey| #[trigger] session_map(self.sessions@).contains_key(k) implies m0.contains_key(
                    k,
                ) && session_map(self.sessions@)[k] == m0[k] by {
                    assert(session_map(s).contains_key(k));
                }
                removed = removed + 1;
                assert forall|j: int| 0 <= j < i implies is_live(now, (#[trigger] self.sessions@[j]).last_active_ns) by {
                    assert(self.sessions@[j] == s[j]);
                }
            }
        }
        proof {
            let s1 = self.sessions@;
            assert forall|k: ClientKey| #[trigger] session_map(s1).contains_key(k) implies is_live(
                now,
                m0[k].last_active_ns,
            ) by {
                let j = choose|j: int| 0 <= j < s1.len() && #[trigger] s1[j].key() == k;
                lemma_keyed_at(s1, j);
            }
            lemma_keyed_len(s1);
        }
        removed
    }
}

} // verus!
