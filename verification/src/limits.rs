//! How many connections there may be: over all, and from one address.
use std::collections::HashMap;

use vstd::prelude::*;

use crate::conn::SECOND;

verus! {

broadcast use vstd::std_specs::hash::group_hash_axioms;

/// Concurrent HTTPS connections.
pub const MAX_CONNS: usize = 1024;

/// Concurrent plain-HTTP connections: a cap of its own, because one shared cap
/// would let cheap connections stall the HTTPS listener.
pub const MAX_CONNS_HTTP: usize = 256;

// ------------------------------------------------------------------ semaphore

/// What a wait for a slot comes to.
#[derive(Clone, Copy, PartialEq, Eq, Debug, Structural)]
pub enum Waiting {
    /// A slot is taken.
    Taken,
    /// None is free; wait for at most this long and look again.
    Wait(u64),
    /// None is free and the time is up.
    GiveUp,
}

/// How many slots are free after one was asked for.
pub open spec fn slots_left(free: nat) -> nat {
    if free > 0 {
        (free - 1) as nat
    } else {
        0
    }
}

/// A counting semaphore: how many slots are free.
pub struct Semaphore {
    pub free: usize,
}

impl Semaphore {
    /// A semaphore with `n` slots.
    pub fn new(n: usize) -> (r: Semaphore)
        ensures
            r.free == n,
    {
        Semaphore { free: n }
    }

    /// Takes a slot, or says how long to wait for one. The limit on the wait is
    /// not optional: a listener that is being retired notices only between
    /// waits, and a saturated one would otherwise keep its socket bound.
    pub fn acquire_timeout(&mut self, deadline: u64, now: u64) -> (r: Waiting)
        ensures
            r == (if old(self).free > 0 {
                Waiting::Taken
            } else if now >= deadline {
                Waiting::GiveUp
            } else {
                Waiting::Wait((deadline - now) as u64)
            }),
            final(self).free == slots_left(old(self).free as nat),
    {
        if self.free > 0 {
            self.free = self.free - 1;
            Waiting::Taken
        } else if now >= deadline {
            Waiting::GiveUp
        } else {
            Waiting::Wait(deadline - now)
        }
    }

    /// Gives a slot back.
    pub fn release(&mut self)
        requires
            old(self).free < usize::MAX,
        ensures
            final(self).free == old(self).free + 1,
    {
        self.free = self.free + 1;
    }
}

// ------------------------------------------------------------ per-address cap

/// A source address.
#[derive(Clone, Copy, PartialEq, Eq, Debug, Structural)]
pub enum Peer {
    V4(u32),
    V6(u128),
}

/// How many connections each address holds, and how many it may. Without it one
/// peer could hold every slot.
pub struct PeerLimiter {
    max: usize,
    v4: HashMap<u32, usize>,
    v6: HashMap<u128, usize>,
}

/// What an address that holds `held` connections gets under a cap: nothing, or a
/// slot, counted or not. A cap of 0 counts nothing and refuses nothing.
pub open spec fn granted(held: nat, max: usize) -> Option<bool> {
    if max == 0 {
        Some(false)
    } else if held >= max {
        None
    } else {
        Some(true)
    }
}

/// What an address holds after that.
pub open spec fn held_after(held: nat, grant: Option<bool>) -> nat {
    if grant == Some(true) {
        held + 1
    } else {
        held
    }
}

/// What an address holds after it gave a slot back.
pub open spec fn held_left(held: nat, counted: bool) -> nat {
    if counted && held > 0 {
        (held - 1) as nat
    } else {
        held
    }
}

impl PeerLimiter {
    /// How many connections an address may hold; 0 for any number.
    pub closed spec fn max_spec(&self) -> usize {
        self.max
    }

    /// How many counted connections an address holds.
    pub closed spec fn held(&self, peer: Peer) -> nat {
        match peer {
            Peer::V4(a) => if self.v4@.contains_key(a) {
                self.v4@[a] as nat
            } else {
                0
            },
            Peer::V6(a) => if self.v6@.contains_key(a) {
                self.v6@[a] as nat
            } else {
                0
            },
        }
    }

    /// Whether anything is kept about an address.
    pub closed spec fn known(&self, peer: Peer) -> bool {
        match peer {
            Peer::V4(a) => self.v4@.contains_key(a),
            Peer::V6(a) => self.v6@.contains_key(a),
        }
    }

    /// Nothing is kept about an address that holds no connection, so the table
    /// does not grow without bound.
    pub open spec fn wf(&self) -> bool {
        forall|p: Peer| #[trigger] self.known(p) ==> self.held(p) > 0
    }

    /// A limiter that counts nothing yet.
    pub fn new(max: usize) -> (r: PeerLimiter)
        ensures
            r.wf(),
            r.max_spec() == max,
            forall|p: Peer| #[trigger] r.held(p) == 0,
            forall|p: Peer| !#[trigger] r.known(p),
    {
        PeerLimiter { max, v4: HashMap::new(), v6: HashMap::new() }
    }

    /// Changes the cap. Connections that are there stay.
    pub fn set_max(&mut self, max: usize)
        requires
            old(self).wf(),
        ensures
            final(self).wf(),
            final(self).max_spec() == max,
            forall|p: Peer| #[trigger] final(self).held(p) == old(self).held(p),
    {
        let ghost before = *self;
        self.max = max;
        assert forall|p: Peer| #[trigger] self.known(p) implies self.held(p) > 0 by {
            assert(before.known(p));
        }
    }

    /// The cap in force.
    pub fn max(&self) -> (r: usize)
        ensures
            r == self.max_spec(),
    {
        self.max
    }

    fn count(&self, peer: Peer) -> (r: usize)
        ensures
            r == self.held(peer),
    {
        let found = match peer {
            Peer::V4(a) => self.v4.get(&a),
            Peer::V6(a) => self.v6.get(&a),
        };
        match found {
            Some(n) => *n,
            None => 0,
        }
    }

    fn record(&mut self, peer: Peer, n: usize)
        requires
            old(self).wf(),
        ensures
            final(self).wf(),
            final(self).max_spec() == old(self).max_spec(),
            final(self).held(peer) == n,
            forall|p: Peer| p != peer ==> #[trigger] final(self).held(p) == old(self).held(p),
    {
        let ghost before = *self;
        match peer {
            Peer::V4(a) => {
                if n == 0 {
                    self.v4.remove(&a);
                } else {
                    self.v4.insert(a, n);
                }
            },
            Peer::V6(a) => {
                if n == 0 {
                    self.v6.remove(&a);
                } else {
                    self.v6.insert(a, n);
                }
            },
        }
        assert forall|p: Peer| #[trigger] self.known(p) implies self.held(p) > 0 by {
            if p != peer {
                assert(before.known(p));
            }
        }
    }

    /// Reserves a slot for an address. `None` means that it is at its cap;
    /// otherwise the result says whether the slot was counted, which has to be
    /// told when it is given back, because the cap may change meanwhile.
    pub fn try_acquire(&mut self, peer: Peer) -> (r: Option<bool>)
        requires
            old(self).wf(),
        ensures
            final(self).wf(),
            final(self).max_spec() == old(self).max_spec(),
            r == granted(old(self).held(peer), old(self).max_spec()),
            final(self).held(peer) == held_after(old(self).held(peer), r),
            forall|p: Peer| p != peer ==> #[trigger] final(self).held(p) == old(self).held(p),
    {
        if self.max == 0 {
            return Some(false);
        }
        let n: usize = self.count(peer);
        if n >= self.max {
            return None;
        }
        self.record(peer, n + 1);
        Some(true)
    }

    /// Gives a slot back.
    pub fn release(&mut self, peer: Peer, counted: bool)
        requires
            old(self).wf(),
        ensures
            final(self).wf(),
            final(self).max_spec() == old(self).max_spec(),
            final(self).held(peer) == held_left(old(self).held(peer), counted),
            forall|p: Peer| p != peer ==> #[trigger] final(self).held(p) == old(self).held(p),
    {
        if !counted {
            return;
        }
        let n: usize = self.count(peer);
        if n > 0 {
            self.record(peer, n - 1);
        }
    }
}

// ------------------------------------------------------------------ accepting

/// How long to wait for a slot before looking whether the listener is retired,
/// in nanoseconds.
pub const SLOT_WAIT: u64 = 500_000_000;

/// What happened in an accept loop.
#[derive(Clone, Copy, PartialEq, Eq, Debug, Structural)]
pub enum AcceptEvent {
    /// The loop is at its start, or back there.
    Idle,
    /// A wait for a slot ended, with one or without.
    Slot(bool),
    /// A connection came in.
    Accepted,
    /// Accepting failed in a way that took the connection off the queue.
    Interrupted,
    /// Accepting failed in a way that leaves the connection queued.
    Failed,
    /// The peer of the connection got a slot of its own, or is at its cap.
    PeerSlot(bool),
    /// The address of the peer could not be read.
    NoPeer,
    /// A worker was started for the connection, or could not be.
    Spawned(bool),
}

/// What an accept loop does next. Leaving a connection or a slot behind drops
/// it.
#[derive(Clone, Copy, PartialEq, Eq, Debug, Structural)]
pub enum AcceptAction {
    /// End the loop and close the socket.
    Stop,
    /// Wait for a slot.
    WaitForSlot,
    /// Accept.
    Accept,
    /// Ask the limiter for a slot for the peer.
    AskPeer,
    /// Start a worker.
    Spawn,
    /// Drop what is held and start over.
    StartOver,
    /// Drop what is held, say so if `log` is set, pause, and start over. Without
    /// the pause a failure that repeats at once would spin and starve the very
    /// workers whose end would cure it.
    Pause { log: bool },
}

/// Whether something that repeats may be said again: at most once a second.
pub open spec fn may_log(last: Option<u64>, now: u64) -> bool {
    match last {
        Some(t) => now - t >= SECOND,
        None => true,
    }
}

/// An accept loop.
pub struct AcceptLoop {
    /// When a failure to accept was last reported.
    pub last_log: Option<u64>,
    /// When a failure to start a worker was last reported.
    pub last_spawn_log: Option<u64>,
}

/// What an accept loop does next. A retired one stops wherever it can notice: at
/// its start, between waits, after a failure and after an accept, which is then
/// most likely the probe that woke it.
pub open spec fn accept_next(l: AcceptLoop, event: AcceptEvent, retired: bool, now: u64) -> AcceptAction {
    match event {
        AcceptEvent::Idle => if retired {
            AcceptAction::Stop
        } else {
            AcceptAction::WaitForSlot
        },
        AcceptEvent::Slot(taken) => if taken {
            AcceptAction::Accept
        } else if retired {
            AcceptAction::Stop
        } else {
            AcceptAction::WaitForSlot
        },
        AcceptEvent::Accepted => if retired {
            AcceptAction::Stop
        } else {
            AcceptAction::AskPeer
        },
        AcceptEvent::Interrupted => if retired {
            AcceptAction::Stop
        } else {
            AcceptAction::StartOver
        },
        AcceptEvent::Failed => if retired {
            AcceptAction::Stop
        } else {
            AcceptAction::Pause { log: may_log(l.last_log, now) }
        },
        AcceptEvent::PeerSlot(granted) => if granted {
            AcceptAction::Spawn
        } else {
            AcceptAction::StartOver
        },
        AcceptEvent::NoPeer => AcceptAction::StartOver,
        AcceptEvent::Spawned(started) => if started {
            AcceptAction::StartOver
        } else {
            AcceptAction::Pause { log: may_log(l.last_spawn_log, now) }
        },
    }
}

fn log_now(last: Option<u64>, now: u64) -> (r: bool)
    ensures
        r == may_log(last, now),
{
    match last {
        Some(t) => now >= t && now - t >= SECOND,
        None => true,
    }
}

impl AcceptLoop {
    /// A loop that has reported nothing.
    pub fn new() -> (r: AcceptLoop)
        ensures
            r.last_log is None,
            r.last_spawn_log is None,
    {
        AcceptLoop { last_log: None, last_spawn_log: None }
    }

    /// One turn of the loop. `retired` says whether its generation has passed.
    pub fn spawn_accept(&mut self, event: AcceptEvent, retired: bool, now: u64) -> (r: AcceptAction)
        ensures
            r == accept_next(*old(self), event, retired, now),
            final(self).last_log == (if event == AcceptEvent::Failed && r == (AcceptAction::Pause {
                log: true,
            }) {
                Some(now)
            } else {
                old(self).last_log
            }),
            final(self).last_spawn_log == (if event == AcceptEvent::Spawned(false) && r == (
            AcceptAction::Pause { log: true }) {
                Some(now)
            } else {
                old(self).last_spawn_log
            }),
    {
        match event {
            AcceptEvent::Idle => if retired {
                AcceptAction::Stop
            } else {
                AcceptAction::WaitForSlot
            },
            AcceptEvent::Slot(taken) => if taken {
                AcceptAction::Accept
            } else if retired {
                AcceptAction::Stop
            } else {
                AcceptAction::WaitForSlot
            },
            AcceptEvent::Accepted => if retired {
                AcceptAction::Stop
            } else {
                AcceptAction::AskPeer
            },
            AcceptEvent::Interrupted => if retired {
                AcceptAction::Stop
            } else {
                AcceptAction::StartOver
            },
            AcceptEvent::Failed => {
                if retired {
                    return AcceptAction::Stop;
                }
                let log = log_now(self.last_log, now);
                if log {
                    self.last_log = Some(now);
                }
                AcceptAction::Pause { log }
            },
            AcceptEvent::PeerSlot(granted) => if granted {
                AcceptAction::Spawn
            } else {
                AcceptAction::StartOver
            },
            AcceptEvent::NoPeer => AcceptAction::StartOver,
            AcceptEvent::Spawned(started) => {
                if started {
                    return AcceptAction::StartOver;
                }
                let log = log_now(self.last_spawn_log, now);
                if log {
                    self.last_spawn_log = Some(now);
                }
                AcceptAction::Pause { log }
            },
        }
    }
}

// ----------------------------------------------------------------------- laws

/// Slots are neither made nor lost: giving back the slot that was taken restores
/// the number of free ones.
pub proof fn law_slots_are_conserved(free: nat)
    requires
        free > 0,
    ensures
        slots_left(free) + 1 == free,
{
}

/// Giving back what was taken restores the count, whatever became of the cap in
/// between: a slot is given back the way it was taken.
pub proof fn law_release_undoes_acquire(held: nat, max: usize)
    ensures
        granted(held, max) matches Some(counted) ==> held_left(
            held_after(held, granted(held, max)),
            counted,
        ) == held,
{
}

/// No address gets past its cap.
pub proof fn law_the_cap_holds(held: nat, max: usize)
    requires
        max > 0,
        held <= max,
    ensures
        held_after(held, granted(held, max)) <= max,
        granted(held, max) is None <==> held == max,
{
}

/// A retired listener stops at its start, after a wait in vain, after an accept
/// and after a failed one: it serves no connection that came in behind its
/// retirement.
pub proof fn law_retirement_is_noticed(l: AcceptLoop, event: AcceptEvent, now: u64)
    requires
        event == AcceptEvent::Idle || event == AcceptEvent::Slot(false) || event
            == AcceptEvent::Accepted || event == AcceptEvent::Interrupted || event
            == AcceptEvent::Failed,
    ensures
        accept_next(l, event, true, now) == AcceptAction::Stop,
{
}

/// How an accept loop goes round while it is not retired: it waits for a slot until it
/// has one, accepts, asks for a slot for the peer, and starts a worker; whatever was
/// taken off the queue and cannot be served is dropped, and the loop starts over, with
/// a pause where starting over at once would fail again.
pub proof fn law_how_an_accept_loop_goes_round(l: AcceptLoop, now: u64)
    ensures
        accept_next(l, AcceptEvent::Idle, false, now) == AcceptAction::WaitForSlot,
        accept_next(l, AcceptEvent::Slot(false), false, now) == AcceptAction::WaitForSlot,
        forall|retired: bool| #[trigger]
            accept_next(l, AcceptEvent::Slot(true), retired, now) == AcceptAction::Accept,
        accept_next(l, AcceptEvent::Accepted, false, now) == AcceptAction::AskPeer,
        accept_next(l, AcceptEvent::Interrupted, false, now) == AcceptAction::StartOver,
        accept_next(l, AcceptEvent::Failed, false, now) is Pause,
        forall|retired: bool| #[trigger]
            accept_next(l, AcceptEvent::PeerSlot(true), retired, now) == AcceptAction::Spawn,
        forall|retired: bool| #[trigger]
            accept_next(l, AcceptEvent::PeerSlot(false), retired, now) == AcceptAction::StartOver,
        forall|retired: bool| #[trigger]
            accept_next(l, AcceptEvent::NoPeer, retired, now) == AcceptAction::StartOver,
        forall|retired: bool| #[trigger]
            accept_next(l, AcceptEvent::Spawned(true), retired, now) == AcceptAction::StartOver,
        forall|retired: bool| #[trigger]
            accept_next(l, AcceptEvent::Spawned(false), retired, now) is Pause,
{
}

/// A failure that repeats is said at most once a second, each kind on its own: the
/// first time, and again once a second has passed since it was said.
pub proof fn law_failures_are_said_once_a_second(l: AcceptLoop, now: u64)
    ensures
        accept_next(l, AcceptEvent::Failed, false, now) == (AcceptAction::Pause {
            log: l.last_log is None || now >= l.last_log->0 + 1_000_000_000,
        }),
        accept_next(l, AcceptEvent::Spawned(false), false, now) == (AcceptAction::Pause {
            log: l.last_spawn_log is None || now >= l.last_spawn_log->0 + 1_000_000_000,
        }),
{
}

/// What an address gets: under a cap of nought whatever it asks for, uncounted;
/// otherwise one more counted connection as long as it holds fewer than the cap. What
/// it gives back is one less, if it was counted; what it does not get changes nothing.
pub proof fn law_what_an_address_gets(held: nat, max: usize)
    ensures
        granted(held, 0) == Some(false),
        max > 0 && held < max ==> granted(held, max) == Some(true),
        max > 0 && held >= max ==> granted(held, max) is None,
        held_after(held, Some(true)) == held + 1,
        held_after(held, Some(false)) == held,
        held_after(held, None) == held,
        held_left(held + 1, true) == held,
        held_left(held, false) == held,
        held_left(0, true) == 0,
        slots_left(held + 1) == held,
        slots_left(0) == 0,
{
}

} // verus!
