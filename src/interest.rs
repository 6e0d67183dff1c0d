//! The interest registry: which sockets the engine wants watched, and for what.
//!
//! The engine announces its wishes one socket at a time, as "persistent until told
//! otherwise". The poller registers, modifies and deregisters sockets. The registry
//! sits between the two: every announcement updates it and yields the single poller
//! operation that keeps the poller's registrations equal to the registry.
use vstd::prelude::*;

verus! {

/// An engine socket descriptor (a file descriptor on Unix).
pub type Socket = i32;

/// The key under which the poller knows `socket`, if it has one: sockets are
/// non-negative descriptors, and their key is their number.
pub fn poller_key(socket: Socket) -> (r: Option<usize>)
    ensures
        socket >= 0 ==> r == Some(socket as usize),
        socket < 0 ==> r is None,
{
    if socket >= 0 {
        Some(socket as usize)
    } else {
        None
    }
}

/// The socket that the poller's key `key` stands for, if any socket has that key.
pub fn socket_for_key(key: usize) -> (r: Option<Socket>)
    ensures
        key <= i32::MAX ==> r == Some(key as Socket),
        key > i32::MAX ==> r is None,
{
    if key <= i32::MAX as usize {
        Some(key as Socket)
    } else {
        None
    }
}

/// A socket that has a poller key is found again from that key.
pub proof fn lemma_key_round_trip(socket: Socket)
    requires
        socket >= 0,
    ensures
        (socket as usize) <= i32::MAX,
        (socket as usize) as Socket == socket,
{
}

/// Which kinds of readiness the engine wants on one socket.
#[derive(Clone, Copy, Debug, PartialEq, Eq, Structural)]
pub struct Interest {
    pub readable: bool,
    pub writable: bool,
}

impl Interest {
    /// At least one kind of readiness is wanted.
    pub open spec fn wants_any(self) -> bool {
        self.readable || self.writable
    }

    /// An interest in the given kinds of readiness.
    pub fn new(readable: bool, writable: bool) -> (r: Interest)
        ensures
            r.readable == readable,
            r.writable == writable,
    {
        Interest { readable, writable }
    }

    /// Whether the socket should stay registered with the poller at all.
    pub fn is_active(&self) -> (r: bool)
        ensures
            r == self.wants_any(),
    {
        self.readable || self.writable
    }
}

/// One change to the poller's registrations.
#[derive(Clone, Copy, Debug, PartialEq, Eq, Structural)]
pub enum PollerOp {
    /// Register a socket that is not registered yet.
    Add(Socket, Interest),
    /// Change the interest of a registered socket (also how a one-shot
    /// registration is re-armed).
    Modify(Socket, Interest),
    /// Deregister a registered socket.
    Delete(Socket),
    /// Leave the poller as it is.
    Nothing,
}

impl PollerOp {
    /// Whether carrying out this operation should also wake the loop, so that a
    /// freshly announced interest is waited on at once.
    pub fn announces_interest(&self) -> (r: bool)
        ensures
            r == (self is Add || self is Modify),
    {
        match self {
            PollerOp::Add(_, _) => true,
            PollerOp::Modify(_, _) => true,
            _ => false,
        }
    }
}

/// The registry after the engine announced interest `i` in socket `s`.
pub open spec fn registry_after(m: Map<Socket, Interest>, s: Socket, i: Interest) -> Map<
    Socket,
    Interest,
> {
    if i.wants_any() {
        m.insert(s, i)
    } else {
        m.remove(s)
    }
}

/// The poller operation owed for announcing interest `i` in socket `s` to registry `m`.
pub open spec fn op_for_update(m: Map<Socket, Interest>, s: Socket, i: Interest) -> PollerOp {
    if i.wants_any() {
        if m.contains_key(s) {
            PollerOp::Modify(s, i)
        } else {
            PollerOp::Add(s, i)
        }
    } else if m.contains_key(s) {
        PollerOp::Delete(s)
    } else {
        PollerOp::Nothing
    }
}

/// The poller's registrations after it carried out `op`.
pub open spec fn poller_after(p: Map<Socket, Interest>, op: PollerOp) -> Map<Socket, Interest> {
    match op {
        PollerOp::Add(s, i) => p.insert(s, i),
        PollerOp::Modify(s, i) => p.insert(s, i),
        PollerOp::Delete(s) => p.remove(s),
        PollerOp::Nothing => p,
    }
}

/// The poller accepts `op`: no socket is added twice, and only registered sockets
/// are modified or deleted.
pub open spec fn poller_accepts(p: Map<Socket, Interest>, op: PollerOp) -> bool {
    match op {
        PollerOp::Add(s, _) => !p.contains_key(s),
        PollerOp::Modify(s, _) => p.contains_key(s),
        PollerOp::Delete(s) => p.contains_key(s),
        PollerOp::Nothing => true,
    }
}

/// `op` re-arms a socket of registry `m` with the interest recorded for it.
pub open spec fn rearms(m: Map<Socket, Interest>, op: PollerOp) -> bool {
    match op {
        PollerOp::Modify(s, i) => m.contains_key(s) && m[s] == i,
        _ => false,
    }
}

/// The per-socket record of what the engine currently wants watched.
pub struct InterestRegistry {
    entries: Vec<(Socket, Interest)>,
    model: Ghost<Map<Socket, Interest>>,
}

impl View for InterestRegistry {
    type V = Map<Socket, Interest>;

    closed spec fn view(&self) -> Map<Socket, Interest> {
        self.model@
    }
}

impl InterestRegistry {
    /// Entries are unique per socket, each wants some readiness, and they are
    /// exactly the registry's map.
    pub closed spec fn wf(&self) -> bool {
        &&& forall|i: int, j: int|
            0 <= i < j < self.entries@.len() ==> #[trigger] self.entries@[i].0
                != #[trigger] self.entries@[j].0
        &&& forall|i: int|
            0 <= i < self.entries@.len() ==> {
                &&& self.model@.contains_key(#[trigger] self.entries@[i].0)
                &&& self.model@[self.entries@[i].0] == self.entries@[i].1
                &&& self.entries@[i].1.wants_any()
            }
        &&& forall|s: Socket|
            #[trigger] self.model@.contains_key(s) ==> exists|i: int|
                0 <= i < self.entries@.len() && #[trigger] self.entries@[i].0 == s
    }

    /// Every recorded interest wants some readiness.
    pub proof fn lemma_only_active(&self)
        requires
            self.wf(),
        ensures
            forall|s: Socket| #[trigger] self@.contains_key(s) ==> self@[s].wants_any(),
    {
        assert forall|s: Socket| #[trigger] self@.contains_key(s) implies self@[s].wants_any() by {
            let i = choose|i: int| 0 <= i < self.entries@.len() && #[trigger] self.entries@[i].0 == s;
        }
    }

    /// An empty registry: no socket is watched.
    pub fn new() -> (r: InterestRegistry)
        ensures
            r.wf(),
            r@ == Map::<Socket, Interest>::empty(),
    {
        InterestRegistry { entries: Vec::new(), model: Ghost(Map::empty()) }
    }

    fn position(&self, socket: Socket) -> (r: Option<usize>)
        requires
            self.wf(),
        ensures
            r matches Some(i) ==> i < self.entries@.len() && self.entries@[i as int].0 == socket,
            r is None ==> !self@.contains_key(socket),
    {
        let mut k: usize = 0;
        while k < self.entries.len()
            invariant
                self.wf(),
                k <= self.entries@.len(),
                forall|j: int| 0 <= j < k ==> #[trigger] self.entries@[j].0 != socket,
            decreases self.entries@.len() - k,
        {
            if self.entries[k].0 == socket {
                return Some(k);
            }
            k = k + 1;
        }
        proof {
            if self@.contains_key(socket) {
                let j = choose|j: int|
                    0 <= j < self.entries@.len() && #[trigger] self.entries@[j].0 == socket;
            }
        }
        None
    }

    /// What the engine currently wants watched on `socket`, if anything.
    pub fn interest_of(&self, socket: Socket) -> (r: Option<Interest>)
        requires
            self.wf(),
        ensures
            r == (if self@.contains_key(socket) {
                Some(self@[socket])
            } else {
                None
            }),
    {
        match self.position(socket) {
            Some(i) => Some(self.entries[i].1),
            None => None,
        }
    }

    /// The operations that re-arm every watched socket with its recorded interest:
    /// one `Modify` per socket of the registry, each socket once, in some order.
    pub fn rearm_ops(&self) -> (ops: Vec<PollerOp>)
        requires
            self.wf(),
        ensures
            forall|j: int| 0 <= j < ops@.len() ==> rearms(self@, #[trigger] ops@[j]),
            forall|s: Socket|
                #[trigger] self@.contains_key(s) ==> exists|j: int|
                    0 <= j < ops@.len() && #[trigger] ops@[j] == PollerOp::Modify(s, self@[s]),
            forall|j: int, k: int| 0 <= j < k < ops@.len() ==> #[trigger] ops@[j] != #[trigger] ops@[k],
    {
        let mut ops: Vec<PollerOp> = Vec::new();
        let mut k: usize = 0;
        while k < self.entries.len()
            invariant
                self.wf(),
                k <= self.entries@.len(),
                ops@.len() == k,
                forall|j: int|
                    0 <= j < k ==> #[trigger] ops@[j] == PollerOp::Modify(
                        self.entries@[j].0,
                        self.entries@[j].1,
                    ),
            decreases self.entries@.len() - k,
        {
            let (s, i) = self.entries[k];
            ops.push(PollerOp::Modify(s, i));
            k = k + 1;
        }
        proof {
            assert forall|j: int| 0 <= j < ops@.len() implies rearms(self@, #[trigger] ops@[j]) by {
                assert(self.model@.contains_key(self.entries@[j].0));
            }
            assert forall|s: Socket| #[trigger] self@.contains_key(s) implies exists|j: int|
                0 <= j < ops@.len() && #[trigger] ops@[j] == PollerOp::Modify(s, self@[s]) by {
                let j = choose|j: int|
                    0 <= j < self.entries@.len() && #[trigger] self.entries@[j].0 == s;
                assert(ops@[j] == PollerOp::Modify(s, self@[s]));
            }
            assert forall|j: int, k: int| 0 <= j < k < ops@.len() implies #[trigger] ops@[j]
                != #[trigger] ops@[k] by {
                assert(self.entries@[j].0 != self.entries@[k].0);
            }
        }
        ops
    }

    /// Records the engine's announcement that it wants `readable` / `writable`
    /// readiness on `socket`, and returns the poller operation that keeps the
    /// poller's registrations equal to the registry: an announcement of no interest
    /// removes the socket (deleting it from the poller if it was there), any other
    /// announcement adds the socket or replaces its interest.
    pub fn update(&mut self, socket: Socket, readable: bool, writable: bool) -> (op: PollerOp)
        requires
            old(self).wf(),
        ensures
            final(self).wf(),
            final(self)@ == registry_after(old(self)@, socket, Interest { readable, writable }),
            op == op_for_update(old(self)@, socket, Interest { readable, writable }),
    {
        let interest = Interest { readable, writable };
        let found = self.position(socket);
        if !readable && !writable {
            match found {
                Some(k) => {
                    let ghost before = self.entries@;
                    self.entries.remove(k);
                    self.model = Ghost(self.model@.remove(socket));
                    proof {
                        assert forall|i: int| 0 <= i < self.entries@.len() implies {
                            &&& self.model@.contains_key(#[trigger] self.entries@[i].0)
                            &&& self.model@[self.entries@[i].0] == self.entries@[i].1
                            &&& self.entries@[i].1.wants_any()
                        } by {
                            if i < k {
                                assert(self.entries@[i] == before[i]);
                            } else {
                                assert(self.entries@[i] == before[i + 1]);
                            }
                        }
                        assert forall|s: Socket| #[trigger]
                            self.model@.contains_key(s) implies exists|i: int|
                            0 <= i < self.entries@.len() && #[trigger] self.entries@[i].0
                                == s by {
                            let j = choose|j: int|
                                0 <= j < before.len() && #[trigger] before[j].0 == s;
                            assert(j != k);
                            if j < k {
                                assert(self.entries@[j].0 == s);
                            } else {
                                assert(self.entries@[j - 1].0 == s);
                            }
                        }
                        assert forall|i: int, j: int|
                            0 <= i < j < self.entries@.len() implies #[trigger] self.entries@[i].0
                            != #[trigger] self.entries@[j].0 by {
                            let bi = if i < k { i } else { i + 1 };
                            let bj = if j < k { j } else { j + 1 };
                            assert(self.entries@[i] == before[bi]);
                            assert(self.entries@[j] == before[bj]);
                        }
                    }
                    PollerOp::Delete(socket)
                },
                None => PollerOp::Nothing,
            }
        } else {
            match found {
                Some(k) => {
                    let ghost before = self.entries@;
                    self.entries.set(k, (socket, interest));
                    self.model = Ghost(self.model@.insert(socket, interest));
                    proof {
                        assert forall|i: int| 0 <= i < self.entries@.len() implies {
                            &&& self.model@.contains_key(#[trigger] self.entries@[i].0)
                            &&& self.model@[self.entries@[i].0] == self.entries@[i].1
                            &&& self.entries@[i].1.wants_any()
                        } by {
                            if i != k {
                                assert(self.entries@[i] == before[i]);
                            }
                        }
                        assert forall|s: Socket| #[trigger]
                            self.model@.contains_key(s) implies exists|i: int|
                            0 <= i < self.entries@.len() && #[trigger] self.entries@[i].0
                                == s by {
                            if s == socket {
                                assert(self.entries@[k as int].0 == s);
                            } else {
                                let j = choose|j: int|
                                    0 <= j < before.len() && #[trigger] before[j].0 == s;
                                assert(self.entries@[j].0 == s);
                            }
                        }
                    }
                    PollerOp::Modify(socket, interest)
                },
                None => {
                    let ghost before = self.entries@;
                    self.entries.push((socket, interest));
                    self.model = Ghost(self.model@.insert(socket, interest));
                    proof {
                        assert forall|i: int| 0 <= i < self.entries@.len() implies {
                            &&& self.model@.contains_key(#[trigger] self.entries@[i].0)
                            &&& self.model@[self.entries@[i].0] == self.entries@[i].1
                            &&& self.entries@[i].1.wants_any()
                        } by {
                            if i < before.len() {
                                assert(self.entries@[i] == before[i]);
                                assert(before[i].0 != socket);
                            }
                        }
                        assert forall|s: Socket| #[trigger]
                            self.model@.contains_key(s) implies exists|i: int|
                            0 <= i < self.entries@.len() && #[trigger] self.entries@[i].0
                                == s by {
                            if s == socket {
                                assert(self.entries@[before.len() as int].0 == s);
                            } else {
                                let j = choose|j: int|
                                    0 <= j < before.len() && #[trigger] before[j].0 == s;
                                assert(self.entries@[j].0 == s);
                            }
                        }
                        assert forall|i: int, j: int|
                            0 <= i < j < self.entries@.len() implies #[trigger] self.entries@[i].0
                            != #[trigger] self.entries@[j].0 by {
                            if j == before.len() {
                                assert(self.entries@[i] == before[i]);
                            } else {
                                assert(self.entries@[i] == before[i]);
                                assert(self.entries@[j] == before[j]);
                            }
                        }
                    }
                    PollerOp::Add(socket, interest)
                },
            }
        }
    }
}

/// The registry after announcements `us`, made in order, starting from registry `m0`.
pub open spec fn registry_replay(m0: Map<Socket, Interest>, us: Seq<(Socket, Interest)>) -> Map<
    Socket,
    Interest,
>
    decreases us.len(),
{
    if us.len() == 0 {
        m0
    } else {
        registry_after(registry_replay(m0, us.drop_last()), us.last().0, us.last().1)
    }
}

/// The poller operations that the registry returns for announcements `us`, made in
/// order, starting from registry `m0`.
pub open spec fn ops_replay(m0: Map<Socket, Interest>, us: Seq<(Socket, Interest)>) -> Seq<
    PollerOp,
>
    decreases us.len(),
{
    if us.len() == 0 {
        Seq::empty()
    } else {
        let prev = us.drop_last();
        ops_replay(m0, prev).push(op_for_update(registry_replay(m0, prev), us.last().0, us.last().1))
    }
}

/// The poller's registrations after it carried out `ops` in order, starting from registrations `start`.
pub open spec fn poller_replay(start: Map<Socket, Interest>, ops: Seq<PollerOp>) -> Map<
    Socket,
    Interest,
>
    decreases ops.len(),
{
    if ops.len() == 0 {
        start
    } else {
        poller_after(poller_replay(start, ops.drop_last()), ops.last())
    }
}

/// The poller, starting from `start`, accepts each of `ops` in turn.
pub open spec fn poller_accepts_all(start: Map<Socket, Interest>, ops: Seq<PollerOp>) -> bool
    decreases ops.len(),
{
    ops.len() == 0 || (poller_accepts_all(start, ops.drop_last()) && poller_accepts(
        poller_replay(start, ops.drop_last()),
        ops.last(),
    ))
}

/// Announcement `j` of `us` is the last one about socket `s`.
pub open spec fn is_last_update(us: Seq<(Socket, Interest)>, j: int, s: Socket) -> bool {
    &&& 0 <= j < us.len()
    &&& us[j].0 == s
    &&& forall|k: int| j < k < us.len() ==> #[trigger] us[k].0 != s
}

proof fn lemma_ops_replay_len(m0: Map<Socket, Interest>, us: Seq<(Socket, Interest)>)
    ensures
        ops_replay(m0, us).len() == us.len(),
    decreases us.len(),
{
    if us.len() > 0 {
        lemma_ops_replay_len(m0, us.drop_last());
    }
}

proof fn lemma_poller_tracks_registry(m0: Map<Socket, Interest>, us: Seq<(Socket, Interest)>)
    ensures
        poller_accepts_all(m0, ops_replay(m0, us)),
        poller_replay(m0, ops_replay(m0, us)) == registry_replay(m0, us),
    decreases us.len(),
{
    if us.len() > 0 {
        let prev = us.drop_last();
        lemma_poller_tracks_registry(m0, prev);
        let m = registry_replay(m0, prev);
        let op = op_for_update(m, us.last().0, us.last().1);
        let ops = ops_replay(m0, us);
        assert(ops.drop_last() =~= ops_replay(m0, prev));
        assert(ops.last() == op);
        assert(poller_after(m, op) =~= registry_after(m, us.last().0, us.last().1));
    }
}

proof fn lemma_last_update_of_other(us: Seq<(Socket, Interest)>, j: int, s: Socket)
    requires
        us.len() > 0,
        us.last().0 != s,
    ensures
        is_last_update(us, j, s) == is_last_update(us.drop_last(), j, s),
{
    let prev = us.drop_last();
    if is_last_update(us, j, s) {
        assert(j < us.len() - 1);
        assert forall|k: int| j < k < prev.len() implies #[trigger] prev[k].0 != s by {
            assert(prev[k] == us[k]);
        }
    }
    if is_last_update(prev, j, s) {
        assert forall|k: int| j < k < us.len() implies #[trigger] us[k].0 != s by {
            if k < prev.len() {
                assert(prev[k] == us[k]);
            }
        }
    }
}

proof fn lemma_registry_holds_last_interest(us: Seq<(Socket, Interest)>)
    ensures
        forall|s: Socket|
            #[trigger] registry_replay(Map::empty(), us).contains_key(s) <==> exists|j: int|
                is_last_update(us, j, s) && us[j].1.wants_any(),
        forall|s: Socket, j: int|
            #[trigger] is_last_update(us, j, s) && us[j].1.wants_any() ==> registry_replay(
                Map::empty(),
                us,
            )[s] == us[j].1,
    decreases us.len(),
{
    if us.len() > 0 {
        let prev = us.drop_last();
        let n = us.len() - 1;
        lemma_registry_holds_last_interest(prev);
        let m = registry_replay(Map::empty(), us);
        let last = us.last();
        assert forall|s: Socket, j: int| #[trigger] is_last_update(us, j, s) implies (s == last.0
            <==> j == n) by {
            if s == last.0 && j < n {
                assert(us[n].0 != s);
            }
        }
        assert forall|s: Socket| #[trigger] m.contains_key(s) <==> exists|j: int|
            is_last_update(us, j, s) && us[j].1.wants_any() by {
            if s == last.0 {
                if m.contains_key(s) {
                    assert(is_last_update(us, n, s));
                }
            } else {
                let pm = registry_replay(Map::empty(), prev);
                assert(m.contains_key(s) == pm.contains_key(s));
                if pm.contains_key(s) {
                    let j = choose|j: int| is_last_update(prev, j, s) && prev[j].1.wants_any();
                    lemma_last_update_of_other(us, j, s);
                    assert(prev[j] == us[j]);
                    assert(is_last_update(us, j, s) && us[j].1.wants_any());
                }
                if exists|j: int| is_last_update(us, j, s) && us[j].1.wants_any() {
                    let j = choose|j: int| is_last_update(us, j, s) && us[j].1.wants_any();
                    lemma_last_update_of_other(us, j, s);
                    assert(prev[j] == us[j]);
                    assert(is_last_update(prev, j, s) && prev[j].1.wants_any());
                }
            }
        }
        assert forall|s: Socket, j: int| #[trigger] is_last_update(us, j, s) && us[j].1.wants_any()
            implies m[s] == us[j].1 by {
            if s != last.0 {
                lemma_last_update_of_other(us, j, s);
                assert(us[j] == prev[j]);
                assert(is_last_update(prev, j, s));
            }
        }
    }
}

/// Carrying out, on a poller with no registration, each operation that the
/// registry returns for any sequence of announcements never asks the poller to add
/// a socket twice or to touch one it does not hold, and leaves it holding exactly the
/// registry: the sockets whose last announcement wanted some readiness, each with the
/// interest of that last announcement.
pub proof fn lemma_registrations_follow_last_interest(us: Seq<(Socket, Interest)>)
    ensures
        poller_accepts_all(Map::empty(), ops_replay(Map::empty(), us)),
        poller_replay(Map::empty(), ops_replay(Map::empty(), us)) == registry_replay(
            Map::empty(),
            us,
        ),
        forall|s: Socket|
            #[trigger] poller_replay(Map::empty(), ops_replay(Map::empty(), us)).contains_key(s)
                <==> exists|j: int| is_last_update(us, j, s) && us[j].1.wants_any(),
        forall|s: Socket, j: int|
            #[trigger] is_last_update(us, j, s) && us[j].1.wants_any() ==> poller_replay(
                Map::empty(),
                ops_replay(Map::empty(), us),
            )[s] == us[j].1,
{
    lemma_poller_tracks_registry(Map::empty(), us);
    lemma_registry_holds_last_interest(us);
}

/// While the engine keeps announcing some interest in a socket that the registry
/// did not hold, the poller is asked to add that socket once, at the first
/// announcement, and after that only to modify it: never to delete it.
pub proof fn lemma_kept_interest_adds_once(
    m0: Map<Socket, Interest>,
    s: Socket,
    us: Seq<(Socket, Interest)>,
)
    requires
        !m0.contains_key(s),
        us.len() > 0,
        forall|j: int| 0 <= j < us.len() ==> (#[trigger] us[j]).0 == s && us[j].1.wants_any(),
    ensures
        ops_replay(m0, us).len() == us.len(),
        ops_replay(m0, us)[0] == PollerOp::Add(s, us[0].1),
        forall|j: int|
            1 <= j < us.len() ==> #[trigger] ops_replay(m0, us)[j] == PollerOp::Modify(s, us[j].1),
    decreases us.len(),
{
    lemma_ops_replay_len(m0, us);
    let prev = us.drop_last();
    let n = us.len() - 1;
    let ops = ops_replay(m0, us);
    if prev.len() == 0 {
        assert(registry_replay(m0, prev) == m0);
    } else {
        assert forall|j: int| 0 <= j < prev.len() implies (#[trigger] prev[j]).0 == s
            && prev[j].1.wants_any() by {
            assert(prev[j] == us[j]);
        }
        lemma_kept_interest_adds_once(m0, s, prev);
        assert(registry_replay(m0, prev).contains_key(s));
        assert(prev[0] == us[0]);
        assert forall|j: int| 1 <= j < us.len() implies #[trigger] ops[j] == PollerOp::Modify(
            s,
            us[j].1,
        ) by {
            if j < n {
                assert(ops[j] == ops_replay(m0, prev)[j]);
                assert(prev[j] == us[j]);
            }
        }
    }
}

/// The sockets whose one-shot registration is armed after the poller carried out
/// `op`: adding or modifying a registration arms it, deleting it drops it.
pub open spec fn armed_after(a: Set<Socket>, op: PollerOp) -> Set<Socket> {
    match op {
        PollerOp::Add(s, _) => a.insert(s),
        PollerOp::Modify(s, _) => a.insert(s),
        PollerOp::Delete(s) => a.remove(s),
        PollerOp::Nothing => a,
    }
}

/// The armed sockets after the poller carried out `ops` in order, starting from `a`.
pub open spec fn armed_replay(a: Set<Socket>, ops: Seq<PollerOp>) -> Set<Socket>
    decreases ops.len(),
{
    if ops.len() == 0 {
        a
    } else {
        armed_after(armed_replay(a, ops.drop_last()), ops.last())
    }
}

proof fn lemma_rearm_prefix(m: Map<Socket, Interest>, a: Set<Socket>, ops: Seq<PollerOp>)
    requires
        forall|j: int| 0 <= j < ops.len() ==> rearms(m, #[trigger] ops[j]),
    ensures
        poller_accepts_all(m, ops),
        poller_replay(m, ops) == m,
        forall|j: int|
            0 <= j < ops.len() ==> (#[trigger] ops[j] matches PollerOp::Modify(s, _) ==> armed_replay(
                a,
                ops,
            ).contains(s)),
    decreases ops.len(),
{
    if ops.len() > 0 {
        let prev = ops.drop_last();
        assert forall|j: int| 0 <= j < prev.len() implies rearms(m, #[trigger] prev[j]) by {
            assert(prev[j] == ops[j]);
        }
        lemma_rearm_prefix(m, a, prev);
        let last = ops.last();
        assert(rearms(m, ops[ops.len() - 1]));
        if let PollerOp::Modify(s, i) = last {
            assert(poller_after(m, last) =~= m);
        }
        assert forall|j: int|
            0 <= j < ops.len() implies (#[trigger] ops[j] matches PollerOp::Modify(s, _)
            ==> armed_replay(a, ops).contains(s)) by {
            if j < prev.len() {
                assert(prev[j] == ops[j]);
            }
        }
    }
}

/// Re-arming, the step that a one-shot poller needs after every wait: carrying out
/// the registry's re-arm operations on a poller that holds exactly the registry is
/// accepted and leaves its registrations unchanged, and whatever registrations had
/// fired and been disarmed before, afterwards every socket of the registry is armed
/// again, so it is watched in the next wait.
pub proof fn lemma_rearm_restores_watch(
    m: Map<Socket, Interest>,
    a: Set<Socket>,
    ops: Seq<PollerOp>,
)
    requires
        forall|j: int| 0 <= j < ops.len() ==> rearms(m, #[trigger] ops[j]),
        forall|s: Socket|
            #[trigger] m.contains_key(s) ==> exists|j: int|
                0 <= j < ops.len() && #[trigger] ops[j] == PollerOp::Modify(s, m[s]),
    ensures
        poller_accepts_all(m, ops),
        poller_replay(m, ops) == m,
        forall|s: Socket| #[trigger] m.contains_key(s) ==> armed_replay(a, ops).contains(s),
{
    lemma_rearm_prefix(m, a, ops);
    assert forall|s: Socket| #[trigger] m.contains_key(s) implies armed_replay(a, ops).contains(
        s,
    ) by {
        let j = choose|j: int| 0 <= j < ops.len() && #[trigger] ops[j] == PollerOp::Modify(s, m[s]);
    }
}

} // verus!
