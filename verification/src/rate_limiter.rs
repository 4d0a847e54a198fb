//! The decaying rate limiter: one counter for the whole server and one per
//! client, each bounded by its limit and drained a step at a time.

use vstd::prelude::*;
use vstd::hash_map::StringHashMap;
use std::sync::Arc;
use std::sync::Mutex;
use std::sync::MutexGuard;
use crate::sync::{guarded, lock, made_with, new_mutex, share};

verus! {

/// The smallest limit that a limiter works with; smaller ones are raised
/// to it.
pub const MIN_LIMIT: i32 = 10;

/// What is left of a counter after one decay step, never less than zero.
pub open spec fn drained(count: int, step: int) -> int {
    if count > step {
        count - step
    } else {
        0
    }
}

/// The per-client counters, found by the client's name.
pub struct ClientTable {
    index: StringHashMap<usize>,
    names: Vec<String>,
    counts: Vec<i32>,
}

impl View for ClientTable {
    type V = Map<Seq<char>, int>;

    closed spec fn view(&self) -> Map<Seq<char>, int> {
        Map::new(
            |name: Seq<char>| self.index@.contains_key(name),
            |name: Seq<char>| self.counts@[self.index@[name] as int] as int,
        )
    }
}

impl ClientTable {
    /// Every name has one slot and every slot one name, and no counter is
    /// negative.
    pub closed spec fn wf(&self) -> bool {
        &&& self.names@.len() == self.counts@.len()
        &&& forall|name: Seq<char>| #[trigger]
            self.index@.contains_key(name) ==> self.index@[name] < self.names@.len()
                && self.names@[self.index@[name] as int]@ == name
        &&& forall|slot: int|
            0 <= slot < self.names@.len() ==> self.index@.contains_key(
                #[trigger] self.names@[slot]@,
            ) && self.index@[self.names@[slot]@] == slot
        &&& forall|slot: int| 0 <= slot < self.counts@.len() ==> 0 <= #[trigger] self.counts@[slot]
    }

    /// In a well-formed table no counter is negative.
    pub proof fn lemma_counts_not_negative(&self)
        requires
            self.wf(),
        ensures
            forall|name: Seq<char>| self@.contains_key(name) ==> 0 <= #[trigger] self@[name],
    {
    }

    /// A table without clients.
    pub fn new() -> (table: ClientTable)
        ensures
            table.wf(),
            table@ == Map::<Seq<char>, int>::empty(),
    {
        let table = ClientTable { index: StringHashMap::new(), names: Vec::new(), counts: Vec::new() };
        assert(table@ =~= Map::<Seq<char>, int>::empty());
        table
    }

    /// Counts one more request for `name` where its counter is below
    /// `limit`, and says whether it did. A client seen for the first time
    /// starts at zero.
    pub fn allow(&mut self, name: String, limit: i32) -> (allowed: bool)
        requires
            old(self).wf(),
        ensures
            final(self).wf(),
            allowed == (count_of(old(self)@, name@) < limit),
            final(self)@ == old(self)@.insert(
                name@,
                if allowed {
                    count_of(old(self)@, name@) + 1
                } else {
                    count_of(old(self)@, name@)
                },
            ),
    {
        let slot: usize = match self.index.get(name.as_str()) {
            Some(slot) => *slot,
            None => {
                let slot: usize = self.names.len();
                self.index.insert(name.clone(), slot);
                self.names.push(name);
                self.counts.push(0);
                assert(self.wf()) by {
                    assert forall|other: Seq<char>| #[trigger]
                        self.index@.contains_key(other) implies self.index@[other]
                        < self.names@.len() && self.names@[self.index@[other] as int]@
                        == other by {
                        if other != name@ {
                            assert(old(self).index@.contains_key(other));
                        }
                    }
                    assert forall|at: int| 0 <= at < self.names@.len() implies self.index@.contains_key(
                        #[trigger] self.names@[at]@,
                    ) && self.index@[self.names@[at]@] == at by {
                        if at < slot {
                            assert(self.names@[at] == old(self).names@[at]);
                            assert(old(self).index@.contains_key(old(self).names@[at]@));
                        }
                    }
                }
                assert(self@ =~= old(self)@.insert(name@, 0));
                slot
            },
        };
        let ghost before = *self;
        assert(before@ == old(self)@.insert(name@, count_of(old(self)@, name@))) by {
            assert(before@ =~= old(self)@.insert(name@, count_of(old(self)@, name@)));
        }
        assert(before.index@.contains_key(name@) && before.index@[name@] == slot);
        let count: i32 = self.counts[slot];
        if count < limit {
            self.counts.set(slot, count + 1);
            assert(self.wf()) by {
                assert forall|other: Seq<char>| #[trigger]
                    self.index@.contains_key(other) implies self.index@[other] < self.names@.len()
                    && self.names@[self.index@[other] as int]@ == other by {
                    assert(before.index@.contains_key(other));
                }
                assert forall|at: int| 0 <= at < self.names@.len() implies self.index@.contains_key(
                    #[trigger] self.names@[at]@,
                ) && self.index@[self.names@[at]@] == at by {
                    assert(before.index@.contains_key(before.names@[at]@));
                }
            }
            assert(self@ =~= before@.insert(name@, count + 1)) by {
                assert forall|other: Seq<char>| self@.contains_key(other) implies self@[other]
                    == before@.insert(name@, count + 1)[other] by {
                    if other != name@ {
                        assert(before.index@.contains_key(other));
                        assert(before.names@[before.index@[other] as int]@ == other);
                        assert(before.index@[other] != slot);
                    }
                }
            }
            assert(self@ =~= old(self)@.insert(name@, count_of(old(self)@, name@) + 1));
            true
        } else {
            false
        }
    }

    /// Drains every counter by `step`, never below zero.
    pub fn decay(&mut self, step: i32)
        requires
            old(self).wf(),
            0 <= step,
        ensures
            final(self).wf(),
            final(self)@ == old(self)@.map_values(|count: int| drained(count, step as int)),
    {
        let mut slot: usize = 0;
        while slot < self.counts.len()
            invariant
                0 <= step,
                slot <= self.counts@.len(),
                self.counts@.len() == old(self).counts@.len(),
                self.index == old(self).index,
                self.names == old(self).names,
                old(self).wf(),
                forall|at: int|
                    0 <= at < slot ==> #[trigger] self.counts@[at] == drained(
                        old(self).counts@[at] as int,
                        step as int,
                    ),
                forall|at: int|
                    slot <= at < self.counts@.len() ==> #[trigger] self.counts@[at] == old(
                        self,
                    ).counts@[at],
            decreases self.counts@.len() - slot,
        {
            let count: i32 = self.counts[slot];
            let left: i32 = if count > step {
                count - step
            } else {
                0
            };
            self.counts.set(slot, left);
            slot += 1;
        }
        assert(self.wf());
        assert(self@ =~= old(self)@.map_values(|count: int| drained(count, step as int)));
    }

    /// Drops the clients whose counter has drained to zero.
    pub fn prune(&mut self)
        requires
            old(self).wf(),
        ensures
            final(self).wf(),
            final(self)@ == active(old(self)@),
    {
        let mut index: StringHashMap<usize> = StringHashMap::new();
        let mut names: Vec<String> = Vec::new();
        let mut counts: Vec<i32> = Vec::new();
        let mut slot: usize = 0;
        while slot < self.names.len()
            invariant
                self.wf(),
                self == old(self),
                slot <= self.names@.len(),
                names@.len() == counts@.len(),
                forall|name: Seq<char>| #[trigger]
                    index@.contains_key(name) ==> index@[name] < names@.len()
                        && names@[index@[name] as int]@ == name,
                forall|at: int|
                    0 <= at < names@.len() ==> index@.contains_key(#[trigger] names@[at]@)
                        && index@[names@[at]@] == at,
                forall|at: int| 0 <= at < counts@.len() ==> 0 <= #[trigger] counts@[at],
                forall|name: Seq<char>| #[trigger]
                    index@.contains_key(name) <==> self.index@.contains_key(name)
                        && self.index@[name] < slot && self.counts@[self.index@[name] as int] > 0,
                forall|name: Seq<char>| #[trigger]
                    index@.contains_key(name) ==> counts@[index@[name] as int]
                        == self.counts@[self.index@[name] as int],
            decreases self.names@.len() - slot,
        {
            let count: i32 = self.counts[slot];
            if count > 0 {
                let name: String = self.names[slot].clone();
                let ghost earlier = index@;
                let ghost kept = names@.len();
                assert(self.index@.contains_key(self.names@[slot as int]@));
                assert(!earlier.contains_key(name@));
                index.insert(name.clone(), names.len());
                names.push(name);
                counts.push(count);
                assert forall|other: Seq<char>| #[trigger]
                    index@.contains_key(other) implies index@[other] < names@.len()
                    && names@[index@[other] as int]@ == other by {
                    if other != name@ {
                        assert(earlier.contains_key(other));
                    }
                }
                assert forall|at: int| 0 <= at < names@.len() implies index@.contains_key(
                    #[trigger] names@[at]@,
                ) && index@[names@[at]@] == at by {
                    if at < kept {
                        assert(earlier.contains_key(names@[at]@));
                    }
                }
                assert forall|other: Seq<char>| #[trigger]
                    index@.contains_key(other) implies counts@[index@[other] as int]
                    == self.counts@[self.index@[other] as int] by {
                    if other != name@ {
                        assert(earlier.contains_key(other));
                    }
                }
                assert forall|other: Seq<char>| #[trigger]
                    index@.contains_key(other) <==> self.index@.contains_key(other)
                        && self.index@[other] < slot + 1 && self.counts@[self.index@[other] as int]
                        > 0 by {
                    if other != name@ {
                        if self.index@.contains_key(other) {
                            assert(self.names@[self.index@[other] as int]@ == other);
                        }
                        assert(earlier.contains_key(other) == index@.contains_key(other));
                    }
                }
            } else {
                assert forall|other: Seq<char>| #[trigger]
                    index@.contains_key(other) <==> self.index@.contains_key(other)
                        && self.index@[other] < slot + 1 && self.counts@[self.index@[other] as int]
                        > 0 by {
                }
            }
            slot += 1;
        }
        let ghost before = *self;
        self.index = index;
        self.names = names;
        self.counts = counts;
        assert(self@ =~= active(before@));
    }
}

/// The counter that `clients` holds for `name`: zero for a client not yet
/// seen.
pub open spec fn count_of(clients: Map<Seq<char>, int>, name: Seq<char>) -> int {
    if clients.contains_key(name) {
        clients[name]
    } else {
        0
    }
}

/// The clients whose counter is above zero.
pub open spec fn active(clients: Map<Seq<char>, int>) -> Map<Seq<char>, int> {
    Map::new(
        |name: Seq<char>| clients.contains_key(name) && clients[name] > 0,
        |name: Seq<char>| clients[name],
    )
}

/// What a limiter holds, as plain mathematical values.
pub struct LimiterView {
    pub limit_per_client: int,
    pub limit_per_server: int,
    pub server: int,
    pub clients: Map<Seq<char>, int>,
}

impl LimiterView {
    /// Both limits are at least `MIN_LIMIT`, and every counter lies between
    /// zero and its limit.
    pub open spec fn wf(self) -> bool {
        &&& MIN_LIMIT <= self.limit_per_client <= i32::MAX
        &&& MIN_LIMIT <= self.limit_per_server <= i32::MAX
        &&& 0 <= self.server <= self.limit_per_server
        &&& forall|name: Seq<char>| #[trigger]
            self.clients.contains_key(name) ==> 0 <= self.clients[name] <= self.limit_per_client
    }

    /// The step by which one decay cycle drains a client's counter: a tenth
    /// of the limit.
    pub open spec fn client_step(self) -> int {
        self.limit_per_client / 10
    }

    /// The step by which one decay cycle drains the server's counter: a
    /// tenth of the limit.
    pub open spec fn server_step(self) -> int {
        self.limit_per_server / 10
    }

    /// The state after one request was offered to the server-wide counter.
    pub open spec fn after_server_allow(self) -> LimiterView {
        LimiterView {
            server: if self.server < self.limit_per_server {
                self.server + 1
            } else {
                self.server
            },
            ..self
        }
    }

    /// The state after one request of `client` was offered to its counter.
    pub open spec fn after_client_allow(self, client: Seq<char>) -> LimiterView {
        LimiterView {
            clients: self.clients.insert(
                client,
                if count_of(self.clients, client) < self.limit_per_client {
                    count_of(self.clients, client) + 1
                } else {
                    count_of(self.clients, client)
                },
            ),
            ..self
        }
    }

    /// Whether a request of `client` is let in: whether the server-wide
    /// counter and the client's counter are both below their limits.
    pub open spec fn allows(self, client: Seq<char>) -> bool {
        self.server < self.limit_per_server && count_of(self.clients, client)
            < self.limit_per_client
    }

    /// The state after one request of `client` went through both checks,
    /// the server-wide one first: where the server-wide counter is full,
    /// nothing is touched; otherwise the request is counted for the server
    /// and then offered to the client's counter.
    pub open spec fn after_allow(self, client: Seq<char>) -> LimiterView {
        if self.server < self.limit_per_server {
            self.after_server_allow().after_client_allow(client)
        } else {
            self
        }
    }

    /// The state after one decay cycle.
    pub open spec fn after_decay(self) -> LimiterView {
        LimiterView {
            server: drained(self.server, self.server_step()),
            clients: self.clients.map_values(|count: int| drained(count, self.client_step())),
            ..self
        }
    }

    /// The state after the clients without requests were dropped.
    pub open spec fn after_sweep(self) -> LimiterView {
        LimiterView { clients: active(self.clients), ..self }
    }
}

impl LimiterView {
    /// The state after `n` requests of `client` in a row were offered to
    /// its counter.
    pub open spec fn after_client_allows(self, client: Seq<char>, n: nat) -> LimiterView
        decreases n,
    {
        if n == 0 {
            self
        } else {
            self.after_client_allows(client, (n - 1) as nat).after_client_allow(client)
        }
    }
}

/// Requests in a row fill a client's counter one by one up to the limit
/// and no further: of the requests of a client not counted before, the
/// first `limit_per_client` are let in and every later one is turned away.
pub proof fn lemma_client_fills(limiter: LimiterView, client: Seq<char>, n: nat)
    requires
        limiter.wf(),
        count_of(limiter.clients, client) == 0,
    ensures
        limiter.after_client_allows(client, n).wf(),
        limiter.after_client_allows(client, n).limit_per_client == limiter.limit_per_client,
        count_of(limiter.after_client_allows(client, n).clients, client) == if n
            <= limiter.limit_per_client {
            n as int
        } else {
            limiter.limit_per_client
        },
    decreases n,
{
    if n > 0 {
        lemma_client_fills(limiter, client, (n - 1) as nat);
    }
}

/// A request that the server-wide check turns away leaves the client's
/// counter, the set of known clients and the server-wide counter as they
/// were.
pub proof fn lemma_server_rejection_touches_nothing(limiter: LimiterView, client: Seq<char>)
    requires
        limiter.wf(),
        limiter.server == limiter.limit_per_server,
    ensures
        !limiter.allows(client),
        limiter.after_allow(client) == limiter,
{
}

/// A request that the server-wide check lets in and the client's check
/// turns away is counted for the server and not for the client.
pub proof fn lemma_client_rejection_counts_for_server(limiter: LimiterView, client: Seq<char>)
    requires
        limiter.wf(),
        limiter.server < limiter.limit_per_server,
        count_of(limiter.clients, client) == limiter.limit_per_client,
    ensures
        !limiter.allows(client),
        limiter.after_allow(client).server == limiter.server + 1,
        count_of(limiter.after_allow(client).clients, client) == limiter.limit_per_client,
{
}

/// One decay cycle keeps the state well-formed and leaves every counter
/// below its limit, so that the next request of any client, and the next
/// request to the server, is let in.
pub proof fn lemma_decay_reopens(limiter: LimiterView, client: Seq<char>)
    requires
        limiter.wf(),
    ensures
        limiter.after_decay().wf(),
        count_of(limiter.after_decay().clients, client) < limiter.limit_per_client,
        limiter.after_decay().server < limiter.limit_per_server,
{
    assert(limiter.client_step() >= 1);
    assert(limiter.server_step() >= 1);
    if limiter.clients.contains_key(client) {
        assert(0 <= limiter.clients[client] <= limiter.limit_per_client);
    }
}

/// The limiter's state: the two limits, the server-wide counter and the
/// counter of every client seen.
pub struct Limiter {
    limit_per_client: i32,
    limit_per_server: i32,
    client_decreaser: i32,
    server_decreaser: i32,
    server: i32,
    clients: ClientTable,
}

impl View for Limiter {
    type V = LimiterView;

    closed spec fn view(&self) -> LimiterView {
        LimiterView {
            limit_per_client: self.limit_per_client as int,
            limit_per_server: self.limit_per_server as int,
            server: self.server as int,
            clients: self.clients@,
        }
    }
}

impl Limiter {
    #[verifier::type_invariant]
    spec fn inv(self) -> bool {
        &&& self.clients.wf()
        &&& MIN_LIMIT <= self.limit_per_client
        &&& MIN_LIMIT <= self.limit_per_server
        &&& 0 <= self.server <= self.limit_per_server
        &&& forall|name: Seq<char>| #[trigger]
            self.clients@.contains_key(name) ==> self.clients@[name] <= self.limit_per_client
        &&& self.client_decreaser == self.limit_per_client / 10
        &&& self.server_decreaser == self.limit_per_server / 10
    }

    /// A limiter with these limits and no request counted. A limit below
    /// `MIN_LIMIT` is raised to it.
    pub fn new(limit_per_client: i32, limit_per_server: i32) -> (limiter: Limiter)
        ensures
            limiter@.wf(),
            limiter@ == (LimiterView {
                limit_per_client: if limit_per_client < MIN_LIMIT {
                    MIN_LIMIT as int
                } else {
                    limit_per_client as int
                },
                limit_per_server: if limit_per_server < MIN_LIMIT {
                    MIN_LIMIT as int
                } else {
                    limit_per_server as int
                },
                server: 0,
                clients: Map::empty(),
            }),
    {
        let limit_per_client: i32 = if limit_per_client < MIN_LIMIT {
            MIN_LIMIT
        } else {
            limit_per_client
        };
        let limit_per_server: i32 = if limit_per_server < MIN_LIMIT {
            MIN_LIMIT
        } else {
            limit_per_server
        };
        Limiter {
            limit_per_client,
            limit_per_server,
            client_decreaser: limit_per_client / 10,
            server_decreaser: limit_per_server / 10,
            server: 0,
            clients: ClientTable::new(),
        }
    }

    /// The most requests that one client may have counted at a time.
    pub fn limit_per_client(&self) -> (limit: i32)
        ensures
            limit == self@.limit_per_client,
            self@.wf(),
    {
        proof {
            use_type_invariant(self);
        }
        self.limit_per_client
    }

    /// The most requests that the server may have counted at a time.
    pub fn limit_per_server(&self) -> (limit: i32)
        ensures
            limit == self@.limit_per_server,
            self@.wf(),
    {
        proof {
            use_type_invariant(self);
        }
        self.limit_per_server
    }

    /// Drops the clients whose counter has drained to zero.
    pub fn remove_empty_clients(&mut self)
        ensures
            final(self)@ == old(self)@.after_sweep(),
            final(self)@.wf(),
    {
        proof {
            use_type_invariant(&*self);
        }
        let mut clients: ClientTable = ClientTable::new();
        core::mem::swap(&mut self.clients, &mut clients);
        clients.prune();
        core::mem::swap(&mut self.clients, &mut clients);
    }

    /// One decay cycle: drains every counter by a tenth of its limit, never
    /// below zero.
    pub fn decrease_all(&mut self)
        ensures
            final(self)@ == old(self)@.after_decay(),
            final(self)@.wf(),
    {
        proof {
            use_type_invariant(&*self);
        }
        self.server = if self.server > self.server_decreaser {
            self.server - self.server_decreaser
        } else {
            0
        };
        let mut clients: ClientTable = ClientTable::new();
        core::mem::swap(&mut self.clients, &mut clients);
        clients.decay(self.client_decreaser);
        core::mem::swap(&mut self.clients, &mut clients);
    }

    /// Counts one more request for the server where its counter is below
    /// the limit, and says whether it did.
    pub fn server_allow(&mut self) -> (allowed: bool)
        ensures
            allowed == (old(self)@.server < old(self)@.limit_per_server),
            final(self)@ == old(self)@.after_server_allow(),
            final(self)@.wf(),
    {
        proof {
            use_type_invariant(&*self);
        }
        if self.server < self.limit_per_server {
            self.server = self.server + 1;
            true
        } else {
            false
        }
    }

    /// Offers one request of the client `ip` to both counters, the
    /// server-wide one first and the client's only where the server-wide
    /// one has let the request in, and says whether both did.
    pub fn allow(&mut self, ip: String) -> (allowed: bool)
        ensures
            allowed == old(self)@.allows(ip@),
            final(self)@ == old(self)@.after_allow(ip@),
            final(self)@.wf(),
    {
        if self.server_allow() {
            self.client_allow(ip)
        } else {
            false
        }
    }

    /// Counts one more request for the client `ip` where its counter is
    /// below the limit, and says whether it did.
    pub fn client_allow(&mut self, ip: String) -> (allowed: bool)
        ensures
            allowed == (count_of(old(self)@.clients, ip@) < old(self)@.limit_per_client),
            final(self)@ == old(self)@.after_client_allow(ip@),
            final(self)@.wf(),
    {
        proof {
            use_type_invariant(&*self);
        }
        let mut clients: ClientTable = ClientTable::new();
        core::mem::swap(&mut self.clients, &mut clients);
        let allowed: bool = clients.allow(ip, self.limit_per_client);
        core::mem::swap(&mut self.clients, &mut clients);
        allowed
    }
}

/// The milliseconds between two decay cycles.
pub const DECAY_INTERVAL_MS: u64 = 100;

/// The milliseconds between two sweeps of the clients without requests.
pub const SWEEP_INTERVAL_MS: u64 = 120000;

/// One limiter shared by every connection: each operation takes the lock,
/// works on the limiter and lets the lock go.
///
/// What an operation returns depends on what the other holders of the lock
/// did before; `Limiter` says what each operation does to the state it
/// finds.
pub struct MutexLimiter(Arc<Mutex<Limiter>>);

impl MutexLimiter {
    /// The state that the shared limiter was made with. What it holds
    /// later is what the holders of the lock have made of it.
    pub closed spec fn initial(&self) -> LimiterView {
        made_with(*self.0)
    }

    /// A shared limiter with these limits and no request counted. A limit
    /// below `MIN_LIMIT` is raised to it.
    pub fn new(limit_per_client: i32, limit_per_server: i32) -> (limiter: MutexLimiter)
        ensures
            limiter.initial().wf(),
            limiter.initial() == (LimiterView {
                limit_per_client: if limit_per_client < MIN_LIMIT {
                    MIN_LIMIT as int
                } else {
                    limit_per_client as int
                },
                limit_per_server: if limit_per_server < MIN_LIMIT {
                    MIN_LIMIT as int
                } else {
                    limit_per_server as int
                },
                server: 0,
                clients: Map::empty(),
            }),
    {
        MutexLimiter(Arc::new(new_mutex(Limiter::new(limit_per_client, limit_per_server))))
    }

    /// One decay cycle on the shared limiter.
    pub fn decrease_all(&self) {
        let mut guard: MutexGuard<Limiter> = lock(&self.0);
        guarded(&mut guard).decrease_all();
    }

    /// Drops the clients without requests from the shared limiter.
    pub fn remove_empty_clients(&self) {
        let mut guard: MutexGuard<Limiter> = lock(&self.0);
        guarded(&mut guard).remove_empty_clients();
    }

    /// Another handle on the same limiter: what is counted through one
    /// handle is counted for the other.
    pub fn clone(&self) -> (copy: MutexLimiter)
        ensures
            copy == *self,
    {
        MutexLimiter(share(&self.0))
    }

    /// Offers one request to the server-wide counter.
    pub fn server_allow(&self) -> bool {
        let mut guard: MutexGuard<Limiter> = lock(&self.0);
        guarded(&mut guard).server_allow()
    }

    /// Offers one request of the client `ip` to its counter.
    pub fn client_allow(&self, ip: String) -> bool {
        let mut guard: MutexGuard<Limiter> = lock(&self.0);
        guarded(&mut guard).client_allow(ip)
    }

    /// Offers one request of the client `ip` to both counters under one
    /// hold of the lock, as `Limiter::allow` does.
    pub fn allow(&self, ip: String) -> bool {
        let mut guard: MutexGuard<Limiter> = lock(&self.0);
        guarded(&mut guard).allow(ip)
    }
}

} // verus!
