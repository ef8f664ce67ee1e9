//! One connection: the loop that reads request heads, and the deadlines that
//! bound it.
//!
//! Times are nanoseconds on a clock that never runs backwards. The loop is a
//! function from state and event to state and action; the caller does the
//! reading and the writing.
use vstd::prelude::*;
use vstd::slice::slice_subrange;

use crate::http::find_from;
use crate::text::{first_run, first_run_from, lemma_first_run_from};

verus! {

/// The largest request head.
pub const MAX_HEADER_BYTES: usize = 8192;

/// What is advertised to 0-RTT clients and buffered from them: twice the largest
/// head, so that early data a conforming client sends clears the budget even
/// after the expansion of encryption.
pub const MAX_EARLY_DATA_BYTES: usize = 16_384;

/// Requests per connection.
pub const MAX_REQS_PER_CONN: usize = 1000;

/// One second.
pub const SECOND: u64 = 1_000_000_000;

/// The socket's own timeout per read and write, and so the idle timeout.
pub const IO_TIMEOUT: u64 = 15_000_000_000;

/// To finish sending one request head.
pub const HEADER_TIMEOUT: u64 = 10_000_000_000;

/// To finish the handshake.
pub const HANDSHAKE_TIMEOUT: u64 = 10_000_000_000;

/// The life of a connection, checked between requests.
pub const CONN_MAX: u64 = 300_000_000_000;

/// A response has to move [`MIN_PROGRESS_BYTES`] in every window of this length.
pub const PROGRESS_TIMEOUT: u64 = 30_000_000_000;

/// What a response has to deliver in one window. Any byte at all would not do: a
/// client that reads one byte every few seconds would hold its slot for ever.
pub const MIN_PROGRESS_BYTES: usize = 1024;

/// Reads before a handshake is given up.
pub const MAX_HANDSHAKE_ROUNDS: usize = 64;

// ---------------------------------------------------------------------- phase

/// The hard deadline of what a connection is doing: set while a head is read,
/// not while a response is sent, where it would cut off a slow download.
pub struct Phase {
    pub at: Option<u64>,
}

impl Phase {
    /// A phase without a deadline.
    pub fn new() -> (r: Phase)
        ensures
            r.at is None,
    {
        Phase { at: None }
    }

    /// Bounds the phase about to start.
    pub fn arm(&mut self, at: u64)
        ensures
            final(self).at == Some(at),
    {
        self.at = Some(at);
    }

    /// Lifts the bound.
    pub fn disarm(&mut self)
        ensures
            final(self).at is None,
    {
        self.at = None;
    }

    /// The bound that stands.
    pub fn get(&self) -> (r: Option<u64>)
        ensures
            r == self.at,
    {
        self.at
    }
}

// -------------------------------------------------------------- request loop

/// What ends a request head.
pub open spec fn terminator() -> Seq<u8> {
    seq![0x0du8, 0x0a, 0x0d, 0x0a]
}

/// What the loop waits for.
#[derive(Clone, Copy, PartialEq, Eq, Debug, Structural)]
pub enum Mode {
    /// For its start.
    New,
    /// For bytes of a head.
    Head,
    /// For the answer to a head to be written.
    Busy,
    /// For nothing.
    Done,
}

/// What happened.
pub enum Event<'a> {
    /// The connection is ready.
    Start,
    /// Bytes came in.
    Bytes(&'a [u8]),
    /// The answer is written; whether the connection is kept.
    Answered(bool),
    /// The peer closed, or reading or writing failed.
    Lost,
}

/// What to do.
#[derive(Clone, Copy, PartialEq, Eq, Debug, Structural)]
pub enum Action {
    /// Close.
    Close,
    /// Read.
    Read,
    /// Answer 431 and close.
    TooLarge,
    /// Answer 408 and close.
    TimedOut,
    /// Answer the head that is the first `end` bytes of the buffer.
    Answer { end: usize, want_ka: bool },
}

/// The state of the loop.
#[verifier::ext_equal]
pub struct ConnModel {
    pub buf: Seq<u8>,
    pub reqs: nat,
    pub head_start: Option<u64>,
    pub deadline: u64,
    pub phase: Option<u64>,
    pub mode: Mode,
    /// Where the head that is being answered ends.
    pub end: nat,
}

/// A connection that nothing was done with yet.
pub open spec fn fresh(buf: Seq<u8>, deadline: u64) -> ConnModel {
    ConnModel {
        buf,
        reqs: 0,
        head_start: None,
        deadline,
        phase: None,
        mode: Mode::New,
        end: 0,
    }
}

/// What to do while a head is read: the head is all there, or too long, or too
/// slow, or the rest of it is awaited.
pub open spec fn head_action(c: ConnModel, now: u64) -> Action {
    match first_run(c.buf, terminator()) {
        Some(i) => if i + 4 > MAX_HEADER_BYTES {
            Action::TooLarge
        } else {
            Action::Answer { end: (i + 4) as usize, want_ka: c.reqs + 1 < MAX_REQS_PER_CONN }
        },
        None => if c.buf.len() >= MAX_HEADER_BYTES {
            Action::TooLarge
        } else if (c.head_start matches Some(t) && now - t >= HEADER_TIMEOUT) || now >= c.deadline {
            Action::TimedOut
        } else {
            Action::Read
        },
    }
}

/// The state after such an action.
pub open spec fn after_action(c: ConnModel, action: Action) -> ConnModel {
    match action {
        Action::Answer { end, .. } => ConnModel {
            phase: None,
            mode: Mode::Busy,
            end: end as nat,
            ..c
        },
        Action::Read => ConnModel { mode: Mode::Head, ..c },
        _ => ConnModel { mode: Mode::Done, ..c },
    }
}

/// The next request. Its head has until the connection's end, or for as long as
/// an idle connection may sit and a head may then take.
pub open spec fn next_request(c: ConnModel, now: u64) -> (ConnModel, Action) {
    if c.reqs >= MAX_REQS_PER_CONN || now >= c.deadline {
        (ConnModel { mode: Mode::Done, ..c }, Action::Close)
    } else {
        let d = ConnModel {
            phase: Some(
                if now + IO_TIMEOUT + HEADER_TIMEOUT < c.deadline {
                    (now + IO_TIMEOUT + HEADER_TIMEOUT) as u64
                } else {
                    c.deadline
                },
            ),
            head_start: if c.buf.len() == 0 {
                None
            } else {
                Some(now)
            },
            ..c
        };
        let action = head_action(d, now);
        (after_action(d, action), action)
    }
}

/// More bytes of a head.
pub open spec fn fed(c: ConnModel, bytes: Seq<u8>, now: u64) -> (ConnModel, Action) {
    let d = ConnModel {
        buf: c.buf + bytes,
        head_start: match c.head_start {
            Some(t) => Some(t),
            None => Some(now),
        },
        ..c
    };
    let action = head_action(d, now);
    (after_action(d, action), action)
}

/// An answer that is written and keeps the connection: its head leaves the
/// buffer.
pub open spec fn answered(c: ConnModel, now: u64) -> (ConnModel, Action) {
    next_request(ConnModel { buf: c.buf.skip(c.end as int), reqs: c.reqs + 1, ..c }, now)
}

/// One turn of the loop.
pub open spec fn turned(c: ConnModel, event: Event, now: u64) -> (ConnModel, Action) {
    match (c.mode, event) {
        (Mode::New, Event::Start) => next_request(c, now),
        (Mode::Head, Event::Bytes(b)) => fed(c, b@, now),
        (Mode::Busy, Event::Answered(true)) => answered(c, now),
        _ => (ConnModel { mode: Mode::Done, ..c }, Action::Close),
    }
}

/// The keep-alive loop of one connection. Bytes past one head are kept for the
/// next.
pub struct Conn {
    buf: Vec<u8>,
    /// How far the search for the terminator has run, so that a client feeding
    /// one byte at a time does not cost a scan of the buffer for each.
    scanned: usize,
    reqs: usize,
    head_start: Option<u64>,
    deadline: u64,
    phase: Phase,
    mode: Mode,
    end: usize,
}

impl View for Conn {
    type V = ConnModel;

    closed spec fn view(&self) -> ConnModel {
        ConnModel {
            buf: self.buf@,
            reqs: self.reqs as nat,
            head_start: self.head_start,
            deadline: self.deadline,
            phase: self.phase.at,
            mode: self.mode,
            end: self.end as nat,
        }
    }
}

impl Conn {
    /// What was searched holds no terminator, and a head that is being answered
    /// lies in the buffer.
    pub closed spec fn wf(&self) -> bool {
        &&& self.scanned <= self.buf@.len()
        &&& first_run(self.buf@.take(self.scanned as int), terminator()) is None
        &&& self.mode == Mode::Busy ==> self.end <= self.buf@.len()
        &&& self.reqs <= MAX_REQS_PER_CONN
        &&& self.mode == Mode::Head || self.mode == Mode::Busy ==> self.reqs < MAX_REQS_PER_CONN
    }

    /// A connection that ends at `deadline`. The buffer may hold bytes already.
    pub fn new(buf: Vec<u8>, deadline: u64) -> (r: Conn)
        ensures
            r.wf(),
            r@ == fresh(buf@, deadline),
    {
        let r = Conn {
            buf,
            scanned: 0,
            reqs: 0,
            head_start: None,
            deadline,
            phase: Phase::new(),
            mode: Mode::New,
            end: 0,
        };
        proof {
            lemma_first_run_from(buf@.take(0), terminator(), 0);
        }
        r
    }

    /// The deadline of the current phase.
    pub fn phase_deadline(&self) -> (r: Option<u64>)
        ensures
            r == self@.phase,
    {
        self.phase.get()
    }

    /// The first bytes of the buffer: the head that is being answered.
    pub fn head(&self) -> (r: &[u8])
        requires
            self.wf(),
            self@.mode == Mode::Busy,
        ensures
            r@ == self@.buf.take(self@.end as int),
    {
        slice_subrange(self.buf.as_slice(), 0, self.end)
    }

    /// Looks for the end of the head, from where the last search stopped.
    fn look(&mut self, now: u64) -> (r: Action)
        requires
            old(self).wf(),
            old(self)@.reqs < MAX_REQS_PER_CONN,
        ensures
            final(self).wf(),
            r == head_action(old(self)@, now),
            final(self)@ == after_action(old(self)@, r),
    {
        let from: usize = if self.scanned > 3 {
            self.scanned - 3
        } else {
            0
        };
        let needle: [u8; 4] = [0x0d, 0x0a, 0x0d, 0x0a];
        assert(needle@ =~= terminator());
        proof {
            lemma_scan_resumes(self.buf@, self.scanned as int);
        }
        let n: usize = self.buf.len();
        match find_from(self.buf.as_slice(), needle.as_slice(), from) {
            Some(i) => {
                let end: usize = i + 4;
                if end > MAX_HEADER_BYTES {
                    self.mode = Mode::Done;
                    return Action::TooLarge;
                }
                let want_ka = self.reqs + 1 < MAX_REQS_PER_CONN;
                self.phase.disarm();
                self.mode = Mode::Busy;
                self.end = end;
                Action::Answer { end, want_ka }
            },
            None => {
                self.scanned = n;
                assert(self.buf@.take(n as int) =~= self.buf@);
                let expired = match self.head_start {
                    Some(t) => now >= t && now - t >= HEADER_TIMEOUT,
                    None => false,
                };
                if n >= MAX_HEADER_BYTES {
                    self.mode = Mode::Done;
                    Action::TooLarge
                } else if expired || now >= self.deadline {
                    self.mode = Mode::Done;
                    Action::TimedOut
                } else {
                    self.mode = Mode::Head;
                    Action::Read
                }
            },
        }
    }

    /// Starts the next request.
    fn begin(&mut self, now: u64) -> (r: Action)
        requires
            old(self).wf(),
        ensures
            final(self).wf(),
            (final(self)@, r) == next_request(old(self)@, now),
    {
        if self.reqs >= MAX_REQS_PER_CONN || now >= self.deadline {
            self.mode = Mode::Done;
            return Action::Close;
        }
        let left: u64 = self.deadline - now;
        if left > IO_TIMEOUT + HEADER_TIMEOUT {
            self.phase.arm(now + (IO_TIMEOUT + HEADER_TIMEOUT));
        } else {
            self.phase.arm(self.deadline);
        }
        self.head_start = if self.buf.len() == 0 {
            None
        } else {
            Some(now)
        };
        self.look(now)
    }

    /// One turn of the loop.
    pub fn serve_over(&mut self, event: Event, now: u64) -> (r: Action)
        requires
            old(self).wf(),
        ensures
            final(self).wf(),
            (final(self)@, r) == turned(old(self)@, event, now),
    {
        match (self.mode, event) {
            (Mode::New, Event::Start) => self.begin(now),
            (Mode::Head, Event::Bytes(b)) => {
                if self.head_start.is_none() {
                    self.head_start = Some(now);
                }
                let ghost before = self.buf@;
                self.buf.extend_from_slice(b);
                assert(self.buf@ =~= before + b@);
                assert(self.buf@.take(self.scanned as int) =~= before.take(self.scanned as int));
                self.look(now)
            },
            (Mode::Busy, Event::Answered(true)) => {
                let rest = self.buf.split_off(self.end);
                self.buf = rest;
                self.scanned = 0;
                proof {
                    lemma_first_run_from(self.buf@.take(0), terminator(), 0);
                }
                self.reqs = self.reqs + 1;
                self.mode = Mode::New;
                self.begin(now)
            },
            _ => {
                self.mode = Mode::Done;
                Action::Close
            },
        }
    }
}

/// A search that resumes three bytes before where the last one stopped finds
/// what a search of the whole buffer finds: a terminator may straddle two reads.
pub proof fn lemma_scan_resumes(buf: Seq<u8>, scanned: int)
    requires
        0 <= scanned <= buf.len(),
        first_run(buf.take(scanned), terminator()) is None,
    ensures
        first_run_from(
            buf,
            terminator(),
            if scanned > 3 {
                scanned - 3
            } else {
                0
            },
        ) == first_run(buf, terminator()),
{
    let t = terminator();
    let from = if scanned > 3 {
        scanned - 3
    } else {
        0
    };
    lemma_first_run_from(buf.take(scanned), t, 0);
    lemma_skip_clear(buf, t, 0, from, scanned);
}

/// Where no run starts before an index, the search may start there.
proof fn lemma_skip_clear(buf: Seq<u8>, t: Seq<u8>, i: int, from: int, scanned: int)
    requires
        t.len() == 4,
        0 <= i <= from <= scanned <= buf.len(),
        from <= scanned - 3 || from == 0,
        forall|k: int|
            0 <= k && k + 4 <= scanned ==> #[trigger] buf.take(scanned).subrange(k, k + 4) != t,
    ensures
        first_run_from(buf, t, from) == first_run_from(buf, t, i),
    decreases from - i,
{
    if i < from {
        assert(buf.take(scanned).subrange(i, i + 4) =~= buf.subrange(i, i + 4));
        lemma_skip_clear(buf, t, i + 1, from, scanned);
    }
}

// ------------------------------------------------------------------ deadlines

/// Why a connection is dropped.
#[derive(Clone, Copy, PartialEq, Eq, Debug, Structural)]
pub enum Stall {
    /// The operator's cap on one response.
    Transfer,
    /// The deadline of a request head.
    Head,
    /// A response that delivers too little.
    Rate,
}

/// What is said of a stall.
pub open spec fn stall_text(s: Stall) -> Seq<char> {
    match s {
        Stall::Transfer => "absolute transfer deadline"@,
        Stall::Head => "request head deadline"@,
        Stall::Rate => "below minimum transfer rate"@,
    }
}

impl Stall {
    /// Says why.
    pub fn text(&self) -> (r: &'static str)
        ensures
            r@ == stall_text(*self),
    {
        match self {
            Stall::Transfer => "absolute transfer deadline",
            Stall::Head => "request head deadline",
            Stall::Rate => "below minimum transfer rate",
        }
    }
}

/// The bounds on the traffic of one connection, held at the socket. A write that
/// blocks is retried above it, so only an error from here ends a stalled
/// transfer.
pub struct DeadlineIo {
    /// When the current window began, and what was written in it.
    pub window: u64,
    pub moved: usize,
    /// The operator's cap.
    pub deadline: Option<u64>,
    /// The deadline of the current request head.
    pub phase: Phase,
}

/// The bound that has passed, if one has.
pub open spec fn bound_passed(d: DeadlineIo, now: u64) -> Option<Stall> {
    if d.deadline matches Some(t) && now >= t {
        Some(Stall::Transfer)
    } else if d.phase.at matches Some(t) && now >= t {
        Some(Stall::Head)
    } else {
        None
    }
}

/// The window has run its length.
pub open spec fn window_over(d: DeadlineIo, now: u64) -> bool {
    now - d.window >= PROGRESS_TIMEOUT
}

impl DeadlineIo {
    /// Bounds a connection from now on; `max_response_secs` of 0 sets no cap.
    pub fn new(now: u64, max_response_secs: u64) -> (r: DeadlineIo)
        requires
            now + max_response_secs * SECOND <= u64::MAX,
        ensures
            r.window == now,
            r.moved == 0,
            r.deadline == (if max_response_secs == 0 {
                None::<u64>
            } else {
                Some((now + max_response_secs * SECOND) as u64)
            }),
            r.phase.at is None,
    {
        let deadline = if max_response_secs == 0 {
            None
        } else {
            proof {
                assert(max_response_secs * SECOND <= u64::MAX);
            }
            Some(now + max_response_secs * SECOND)
        };
        DeadlineIo { window: now, moved: 0, deadline, phase: Phase::new() }
    }

    /// Checks the two hard deadlines.
    pub fn check(&self, now: u64) -> (r: Result<(), Stall>)
        ensures
            match r {
                Ok(()) => bound_passed(*self, now) is None,
                Err(s) => bound_passed(*self, now) == Some(s),
            },
    {
        if let Some(t) = self.deadline {
            if now >= t {
                return Err(Stall::Transfer);
            }
        }
        if let Some(t) = self.phase.get() {
            if now >= t {
                return Err(Stall::Head);
            }
        }
        Ok(())
    }

    /// Checks the rate: a window that has run its length must have moved its
    /// quota, and is then started anew. That happens here and not after a write,
    /// because the writes of a stalled client never come to an end.
    pub fn check_rate(&mut self, now: u64) -> (r: Result<(), Stall>)
        ensures
            final(self).deadline == old(self).deadline,
            final(self).phase == old(self).phase,
            match r {
                Ok(()) => if window_over(*old(self), now) {
                    &&& old(self).moved >= MIN_PROGRESS_BYTES
                    &&& final(self).window == now
                    &&& final(self).moved == 0
                } else {
                    *final(self) == *old(self)
                },
                Err(s) => s == Stall::Rate && window_over(*old(self), now) && old(self).moved
                    < MIN_PROGRESS_BYTES && *final(self) == *old(self),
            },
    {
        if now >= self.window && now - self.window >= PROGRESS_TIMEOUT {
            if self.moved < MIN_PROGRESS_BYTES {
                return Err(Stall::Rate);
            }
            self.window = now;
            self.moved = 0;
        }
        Ok(())
    }

    /// Checks what bounds a write, and a flush.
    pub fn before_write(&mut self, now: u64) -> (r: Result<(), Stall>)
        ensures
            final(self).deadline == old(self).deadline,
            final(self).phase == old(self).phase,
            match bound_passed(*old(self), now) {
                Some(s) => r == Err::<(), Stall>(s) && *final(self) == *old(self),
                None => if window_over(*old(self), now) && old(self).moved < MIN_PROGRESS_BYTES {
                    r == Err::<(), Stall>(Stall::Rate) && *final(self) == *old(self)
                } else {
                    &&& r is Ok
                    &&& window_over(*old(self), now) ==> final(self).window == now
                        && final(self).moved == 0
                    &&& !window_over(*old(self), now) ==> *final(self) == *old(self)
                },
            },
    {
        match self.check(now) {
            Err(s) => Err(s),
            Ok(()) => self.check_rate(now),
        }
    }

    /// Notes what was written.
    pub fn wrote(&mut self, n: usize)
        ensures
            final(self).window == old(self).window,
            final(self).deadline == old(self).deadline,
            final(self).phase == old(self).phase,
            final(self).moved == (if old(self).moved + n > usize::MAX {
                usize::MAX as int
            } else {
                old(self).moved + n
            }),
    {
        if self.moved > usize::MAX - n {
            self.moved = usize::MAX;
        } else {
            self.moved = self.moved + n;
        }
    }

    /// Notes what was read. A read means that the connection is between
    /// responses, so the next one starts with a clean window.
    pub fn read(&mut self, n: usize, now: u64)
        ensures
            final(self).deadline == old(self).deadline,
            final(self).phase == old(self).phase,
            n > 0 ==> final(self).window == now && final(self).moved == 0,
            n == 0 ==> *final(self) == *old(self),
    {
        if n > 0 {
            self.window = now;
            self.moved = 0;
        }
    }
}

// ------------------------------------------------------------------ handshake

/// The bounds on one handshake. Each read restarts the socket's own timeout, so
/// a client that trickles its first flight would hold a slot without them.
pub struct Handshake {
    pub rounds: usize,
    pub deadline: u64,
}

impl Handshake {
    /// Starts a handshake.
    pub fn new(now: u64) -> (r: Handshake)
        requires
            now + HANDSHAKE_TIMEOUT <= u64::MAX,
        ensures
            r.rounds == 0,
            r.deadline == now + HANDSHAKE_TIMEOUT,
    {
        Handshake { rounds: 0, deadline: now + HANDSHAKE_TIMEOUT }
    }

    /// Whether one more round of it may be read.
    pub fn may_go_on(&mut self, now: u64) -> (r: bool)
        requires
            old(self).rounds <= MAX_HANDSHAKE_ROUNDS,
        ensures
            final(self).deadline == old(self).deadline,
            r == (old(self).rounds < MAX_HANDSHAKE_ROUNDS && now < old(self).deadline),
            r ==> final(self).rounds == old(self).rounds + 1,
            !r ==> final(self).rounds == old(self).rounds,
    {
        if self.rounds >= MAX_HANDSHAKE_ROUNDS || now >= self.deadline {
            return false;
        }
        self.rounds = self.rounds + 1;
        true
    }
}

/// Takes in early data; `false` means that no more of it is wanted. The bound on
/// a head is held later.
pub fn take_early(buf: &mut Vec<u8>, chunk: &[u8]) -> (r: bool)
    ensures
        final(buf)@ == old(buf)@ + chunk@,
        r == (old(buf)@.len() + chunk@.len() <= MAX_EARLY_DATA_BYTES),
{
    let ghost before = buf@;
    buf.extend_from_slice(chunk);
    assert(buf@ =~= before + chunk@);
    buf.len() <= MAX_EARLY_DATA_BYTES
}

/// How much of a chunk that was read belongs to a body of which `remaining`
/// bytes are still owed.
pub fn body_part(n: usize, remaining: u64) -> (r: usize)
    ensures
        r == (if n <= remaining {
            n as int
        } else {
            remaining as int
        }),
        r <= remaining,
{
    if n as u64 <= remaining {
        n
    } else {
        remaining as usize
    }
}

// ----------------------------------------------------------------------- laws

/// A connection answers at most so many requests: the loop never asks for the
/// answer to one more, and asks for the last to close the connection.
pub proof fn law_requests_are_counted(c: ConnModel, event: Event, now: u64)
    requires
        c.reqs <= MAX_REQS_PER_CONN,
        c.mode == Mode::Head || c.mode == Mode::Busy ==> c.reqs < MAX_REQS_PER_CONN,
    ensures
        turned(c, event, now).0.reqs <= MAX_REQS_PER_CONN,
        turned(c, event, now).1 matches Action::Answer { want_ka, .. } ==> {
            &&& turned(c, event, now).0.reqs < MAX_REQS_PER_CONN
            &&& want_ka <==> turned(c, event, now).0.reqs + 1 < MAX_REQS_PER_CONN
        },
{
}

/// No byte of a pipelined request is lost: when an answer is written, exactly the
/// head that it answered leaves the buffer.
pub proof fn law_pipelined_bytes_are_kept(c: ConnModel, now: u64)
    requires
        c.mode == Mode::Busy,
        c.end <= c.buf.len(),
    ensures
        c.buf == c.buf.take(c.end as int) + turned(c, Event::Answered(true), now).0.buf,
{
    assert(c.buf =~= c.buf.take(c.end as int) + c.buf.skip(c.end as int));
}

/// A head that is answered is within bounds, ends in the terminator and holds no
/// other.
pub proof fn law_answered_heads_are_whole(c: ConnModel, event: Event, now: u64)
    ensures
        turned(c, event, now).1 matches Action::Answer { end, .. } ==> {
            let after = turned(c, event, now).0;
            &&& 4 <= end <= MAX_HEADER_BYTES
            &&& end <= after.buf.len()
            &&& after.buf.subrange(end - 4, end as int) == terminator()
            &&& forall|k: int|
                0 <= k < end - 4 ==> #[trigger] after.buf.subrange(k, k + 4) != terminator()
        },
{
    let after = turned(c, event, now).0;
    lemma_first_run_from(after.buf, terminator(), 0);
}

/// While a head is read, a deadline stands that no byte of it moves, and that the
/// connection's own deadline bounds. None stands while a head is answered.
pub proof fn law_a_head_has_a_deadline(c: ConnModel, event: Event, now: u64)
    requires
        c.mode == Mode::Head ==> c.phase is Some && c.phase->0 <= c.deadline,
    ensures
        ({
            let (after, action) = turned(c, event, now);
            &&& action == Action::Read ==> {
                &&& after.mode == Mode::Head
                &&& after.phase is Some && after.phase->0 <= after.deadline
                &&& c.mode == Mode::Head ==> after.phase == c.phase
                &&& c.mode != Mode::Head ==> after.phase->0 <= now + IO_TIMEOUT + HEADER_TIMEOUT
            }
            &&& action is Answer ==> after.phase is None
        }),
{
}

/// A whole request head: it ends at its first blank line, and is not too long.
pub open spec fn is_whole_head(h: Seq<u8>) -> bool {
    first_run(h, terminator()) == Some(h.len() - 4) && h.len() <= MAX_HEADER_BYTES
}

/// Pieces in a row.
pub open spec fn joined(pieces: Seq<Seq<u8>>) -> Seq<u8>
    decreases pieces.len(),
{
    if pieces.len() == 0 {
        seq![]
    } else {
        pieces[0] + joined(pieces.skip(1))
    }
}

/// What a connection answers from here on: each head, with whether the connection
/// was to be kept. `reads` are the reads that are still to come, after which the
/// input ends; `keeps` says whether an answer was written and kept the
/// connection; `clock` gives the time of turn `n` and those behind it.
pub open spec fn answers(
    c: ConnModel,
    action: Action,
    reads: Seq<Seq<u8>>,
    keeps: spec_fn(Seq<u8>, bool) -> bool,
    clock: spec_fn(nat) -> u64,
    n: nat,
) -> Seq<(Seq<u8>, bool)>
    decreases reads.len(), MAX_REQS_PER_CONN - c.reqs,
{
    match action {
        Action::Read => if reads.len() == 0 {
            seq![]
        } else {
            let (d, next) = fed(c, reads[0], clock(n));
            answers(d, next, reads.skip(1), keeps, clock, n + 1)
        },
        Action::Answer { end, want_ka } => {
            let head = c.buf.take(end as int);
            if keeps(head, want_ka) && c.reqs < MAX_REQS_PER_CONN {
                let (d, next) = answered(c, clock(n));
                seq![(head, want_ka)] + answers(d, next, reads, keeps, clock, n + 1)
            } else {
                seq![(head, want_ka)]
            }
        },
        _ => seq![],
    }
}

/// Heads answered one after the other, until an answer does not keep the
/// connection or it has had its share. The last that it may have is asked to
/// close it.
pub open spec fn in_turn(
    heads: Seq<Seq<u8>>,
    reqs: nat,
    keeps: spec_fn(Seq<u8>, bool) -> bool,
) -> Seq<(Seq<u8>, bool)>
    decreases heads.len(),
{
    if heads.len() == 0 || reqs >= MAX_REQS_PER_CONN {
        seq![]
    } else {
        let want_ka = reqs + 1 < MAX_REQS_PER_CONN;
        if keeps(heads[0], want_ka) {
            seq![(heads[0], want_ka)] + in_turn(heads.skip(1), reqs + 1, keeps)
        } else {
            seq![(heads[0], want_ka)]
        }
    }
}

/// No deadline passes from here on: no head is awaited for too long, and the
/// connection is still young when the next request starts.
pub open spec fn in_time(
    c: ConnModel,
    action: Action,
    reads: Seq<Seq<u8>>,
    keeps: spec_fn(Seq<u8>, bool) -> bool,
    clock: spec_fn(nat) -> u64,
    n: nat,
) -> bool
    decreases reads.len(), MAX_REQS_PER_CONN - c.reqs,
{
    match action {
        Action::TimedOut => false,
        Action::Read => reads.len() > 0 ==> {
            let (d, next) = fed(c, reads[0], clock(n));
            in_time(d, next, reads.skip(1), keeps, clock, n + 1)
        },
        Action::Answer { end, want_ka } => keeps(c.buf.take(end as int), want_ka) && c.reqs
            < MAX_REQS_PER_CONN ==> {
            let (d, next) = answered(c, clock(n));
            clock(n) < c.deadline && in_time(d, next, reads, keeps, clock, n + 1)
        },
        _ => true,
    }
}

/// The terminator of a head is found in whatever starts with the head, and not in
/// less than the head.
proof fn lemma_head_in_front(h: Seq<u8>, s: Seq<u8>)
    requires
        is_whole_head(h),
    ensures
        h.is_prefix_of(s) ==> first_run(s, terminator()) == Some(h.len() - 4),
        s.is_prefix_of(h) && s.len() < h.len() ==> first_run(s, terminator()) is None,
{
    let t = terminator();
    lemma_first_run_from(h, t, 0);
    lemma_first_run_from(s, t, 0);
    if h.is_prefix_of(s) {
        assert(s.subrange(h.len() - 4, h.len() as int) =~= h.subrange(
            h.len() - 4,
            h.len() as int,
        ));
        assert(s.subrange(h.len() - 4, h.len() - 4 + t.len()) == t);
        assert forall|k: int| 0 <= k < h.len() - 4 implies #[trigger] s.subrange(k, k + t.len())
            != t by {
            assert(s.subrange(k, k + t.len()) =~= h.subrange(k, k + t.len()));
        }
    } else if s.is_prefix_of(h) && s.len() < h.len() {
        if let Some(k) = first_run(s, t) {
            assert(s.subrange(k, k + t.len()) =~= h.subrange(k, k + t.len()));
        }
    }
}

/// Of two texts that start one text, one starts the other.
proof fn lemma_one_starts_the_other(a: Seq<u8>, x: Seq<u8>, b: Seq<u8>, y: Seq<u8>)
    requires
        a + x == b + y,
    ensures
        a.len() <= b.len() ==> a.is_prefix_of(b),
        b.len() <= a.len() ==> b.is_prefix_of(a) && a.skip(b.len() as int) + x == y,
{
    let w = a + x;
    assert(a =~= w.take(a.len() as int));
    assert(b =~= w.take(b.len() as int));
    if a.len() <= b.len() {
        assert(a =~= b.take(a.len() as int));
    }
    if b.len() <= a.len() {
        assert(b =~= a.take(b.len() as int));
        assert(a.skip(b.len() as int) + x =~= w.skip(b.len() as int));
        assert(y =~= w.skip(b.len() as int));
    }
}

/// From any turn at which a head is read or about to be answered, the heads that
/// are left are answered in turn.
proof fn lemma_answers_in_turn(
    c: ConnModel,
    action: Action,
    reads: Seq<Seq<u8>>,
    heads: Seq<Seq<u8>>,
    keeps: spec_fn(Seq<u8>, bool) -> bool,
    clock: spec_fn(nat) -> u64,
    n: nat,
)
    requires
        c.reqs < MAX_REQS_PER_CONN,
        c.buf + joined(reads) == joined(heads),
        forall|i: int| 0 <= i < heads.len() ==> is_whole_head(#[trigger] heads[i]),
        in_time(c, action, reads, keeps, clock, n),
        exists|now: u64| action == #[trigger] head_action(c, now),
        action matches Action::Answer { end, .. } ==> c.end == end,
    ensures
        answers(c, action, reads, keeps, clock, n) == in_turn(heads, c.reqs, keeps),
    decreases reads.len(), MAX_REQS_PER_CONN - c.reqs,
{
    let t = terminator();
    if heads.len() == 0 {
        assert((c.buf + joined(reads)).len() == joined(heads).len());
        assert(c.buf.len() == 0);
        assert(joined(reads).len() == 0);
        lemma_first_run_from(c.buf, t, 0);
        assert(action == Action::Read);
        if reads.len() > 0 {
            assert(reads[0].len() == 0);
            let (d, next) = fed(c, reads[0], clock(n));
            assert(d.buf =~= c.buf);
            assert(joined(reads.skip(1)) =~= seq![]);
            assert(d.buf + joined(reads.skip(1)) =~= joined(heads));
            assert(next == head_action(d, clock(n)));
            lemma_answers_in_turn(d, next, reads.skip(1), heads, keeps, clock, n + 1);
        }
    } else {
        let h = heads[0];
        let rest = heads.skip(1);
        assert(is_whole_head(h));
        lemma_head_in_front(h, c.buf);
        lemma_first_run_from(h, t, 0);
        lemma_one_starts_the_other(c.buf, joined(reads), h, joined(rest));
        if c.buf.len() < h.len() {
            assert(action == Action::Read);
            if reads.len() == 0 {
                assert(joined(reads) =~= seq![]);
                assert(c.buf + joined(reads) =~= c.buf);
                assert(joined(heads).len() >= h.len());
                assert(false);
            }
            let (d, next) = fed(c, reads[0], clock(n));
            assert(d.buf + joined(reads.skip(1)) =~= c.buf + joined(reads));
            assert(next == head_action(d, clock(n)));
            lemma_answers_in_turn(d, next, reads.skip(1), heads, keeps, clock, n + 1);
        } else {
            let want_ka = c.reqs + 1 < MAX_REQS_PER_CONN;
            assert(action == Action::Answer { end: h.len() as usize, want_ka });
            assert(c.buf.take(h.len() as int) =~= h);
            if keeps(h, want_ka) {
                let (d, next) = answered(c, clock(n));
                if c.reqs + 1 < MAX_REQS_PER_CONN {
                    assert(d.buf == c.buf.skip(h.len() as int));
                    assert(next == head_action(d, clock(n)));
                    assert forall|i: int| 0 <= i < rest.len() implies is_whole_head(
                        #[trigger] rest[i],
                    ) by {
                        assert(rest[i] == heads[i + 1]);
                    }
                    lemma_answers_in_turn(d, next, reads, rest, keeps, clock, n + 1);
                } else {
                    assert(next == Action::Close);
                    assert(answers(d, next, reads, keeps, clock, n + 1) =~= seq![]);
                    assert(in_turn(rest, c.reqs + 1, keeps) =~= seq![]);
                }
                assert(answers(c, action, reads, keeps, clock, n) == seq![(h, want_ka)] + answers(
                    d,
                    next,
                    reads,
                    keeps,
                    clock,
                    n + 1,
                ));
            }
        }
    }
}

/// Requests are answered in the order in which they came, each of them once,
/// however the reads cut them: where the bytes of a connection are whole heads in
/// a row and no deadline passes, the heads are answered one after the other,
/// until an answer does not keep the connection or it has had its share. Without
/// any input nothing is answered.
pub proof fn law_heads_are_answered_in_turn(
    buf: Seq<u8>,
    reads: Seq<Seq<u8>>,
    heads: Seq<Seq<u8>>,
    deadline: u64,
    keeps: spec_fn(Seq<u8>, bool) -> bool,
    clock: spec_fn(nat) -> u64,
)
    requires
        buf + joined(reads) == joined(heads),
        forall|i: int| 0 <= i < heads.len() ==> is_whole_head(#[trigger] heads[i]),
        clock(0) < deadline,
        ({
            let (c, action) = turned(fresh(buf, deadline), Event::Start, clock(0));
            in_time(c, action, reads, keeps, clock, 1)
        }),
    ensures
        ({
            let (c, action) = turned(fresh(buf, deadline), Event::Start, clock(0));
            answers(c, action, reads, keeps, clock, 1) == in_turn(heads, 0, keeps)
        }),
{
    let (c, action) = turned(fresh(buf, deadline), Event::Start, clock(0));
    assert(action == head_action(c, clock(0)));
    lemma_answers_in_turn(c, action, reads, heads, keeps, clock, 1);
}

// -------------------------------------------------------------- what turns mean

/// A head is answered once its blank line is there: all of it up to that line, and no
/// more. One of more than 8 KiB is too large, whether its end is there or not. The
/// thousandth answer of a connection is its last.
pub proof fn law_a_whole_head_is_answered(c: ConnModel, h: Seq<u8>, rest: Seq<u8>, now: u64)
    requires
        c.buf == h + seq![0x0du8, 0x0a, 0x0d, 0x0a] + rest,
        forall|k: int|
            0 <= k < h.len() ==> #[trigger] c.buf.subrange(k, k + 4) != seq![
                0x0du8,
                0x0a,
                0x0d,
                0x0a,
            ],
    ensures
        h.len() + 4 <= 8192 ==> head_action(c, now) == (Action::Answer {
            end: (h.len() + 4) as usize,
            want_ka: c.reqs < 999,
        }),
        h.len() + 4 > 8192 ==> head_action(c, now) == Action::TooLarge,
{
    let n = h.len() as int;
    assert(c.buf.subrange(n, n + 4) =~= terminator());
    lemma_first_run_from(c.buf, terminator(), 0);
    let i = first_run(c.buf, terminator())->0;
    assert(first_run(c.buf, terminator()) is Some);
    if i < n {
        assert(c.buf.subrange(i, i + 4) == terminator());
    }
    if n < i {
        assert(c.buf.subrange(n, n + terminator().len()) != terminator());
    }
}

/// While the blank line is not there, more is read, unless there is as much as a head
/// may be, or it is ten seconds since the head began, or the connection has come to
/// its end.
pub proof fn law_an_unfinished_head_is_read_on(c: ConnModel, now: u64)
    requires
        forall|k: int|
            0 <= k && k + 4 <= c.buf.len() ==> #[trigger] c.buf.subrange(k, k + 4) != seq![
                0x0du8,
                0x0a,
                0x0d,
                0x0a,
            ],
    ensures
        ({
            let late = (c.head_start matches Some(t) && now >= t + 10_000_000_000) || now
                >= c.deadline;
            &&& c.buf.len() >= 8192 ==> head_action(c, now) == Action::TooLarge
            &&& c.buf.len() < 8192 && late ==> head_action(c, now) == Action::TimedOut
            &&& c.buf.len() < 8192 && !late ==> head_action(c, now) == Action::Read
        }),
{
    lemma_first_run_from(c.buf, terminator(), 0);
    if let Some(i) = first_run(c.buf, terminator()) {
        assert(c.buf.subrange(i, i + 4) == terminator());
    }
}

/// What a turn does. A request begins only while there is time and a request left; its
/// head has 25 seconds, or what is left of the connection; its time counts from its
/// first byte, which may have come with the request before. What is read goes behind
/// what is there. An answer that keeps the connection takes its own head away and
/// begins the next request; one that does not, a connection that is lost, and anything
/// out of turn close it.
pub proof fn law_what_a_turn_does(c: ConnModel, b: &[u8], now: u64)
    ensures
        ({
            let (start, first) = turned(c, Event::Start, now);
            &&& c.mode == Mode::New && (c.reqs >= 1000 || now >= c.deadline) ==> first
                == Action::Close && start.mode == Mode::Done
            &&& c.mode == Mode::New && c.reqs < 1000 && now < c.deadline ==> {
                let d = ConnModel {
                    phase: Some(
                        if c.deadline - now > 25_000_000_000 {
                            (now + 25_000_000_000) as u64
                        } else {
                            c.deadline
                        },
                    ),
                    head_start: if c.buf.len() > 0 {
                        Some(now)
                    } else {
                        None
                    },
                    ..c
                };
                first == head_action(d, now) && start == after_action(d, first)
            }
            &&& c.mode != Mode::New ==> first == Action::Close
        }),
        ({
            let (fed, next) = turned(c, Event::Bytes(b), now);
            &&& c.mode == Mode::Head ==> {
                let d = ConnModel {
                    buf: c.buf + b@,
                    head_start: if c.head_start is Some {
                        c.head_start
                    } else {
                        Some(now)
                    },
                    ..c
                };
                next == head_action(d, now) && fed == after_action(d, next)
            }
            &&& c.mode != Mode::Head ==> next == Action::Close
        }),
        c.mode == Mode::Busy && (c.reqs + 1 >= 1000 || now >= c.deadline) ==> turned(
            c,
            Event::Answered(true),
            now,
        ).1 == Action::Close,
        c.mode == Mode::Busy && c.reqs + 1 < 1000 && now < c.deadline ==> turned(
            c,
            Event::Answered(true),
            now,
        ) == turned(
            ConnModel { buf: c.buf.skip(c.end as int), reqs: c.reqs + 1, mode: Mode::New, ..c },
            Event::Start,
            now,
        ),
        c.mode != Mode::Busy ==> turned(c, Event::Answered(true), now).1 == Action::Close,
        turned(c, Event::Answered(false), now).1 == Action::Close,
        turned(c, Event::Answered(false), now).0.mode == Mode::Done,
        turned(c, Event::Lost, now).1 == Action::Close,
        turned(c, Event::Lost, now).0.mode == Mode::Done,
{
}

/// A deadline that has passed ends the traffic of a connection: first the cap on the
/// response, then that of the head; before either, neither does. A window has run its
/// length after thirty seconds.
pub proof fn law_what_ends_a_transfer(d: DeadlineIo, now: u64)
    ensures
        d.deadline matches Some(t) && now >= t ==> bound_passed(d, now) == Some(Stall::Transfer),
        !(d.deadline matches Some(t) && now >= t) && (d.phase.at matches Some(t) && now >= t)
            ==> bound_passed(d, now) == Some(Stall::Head),
        !(d.deadline matches Some(t) && now >= t) && !(d.phase.at matches Some(t) && now >= t)
            ==> bound_passed(d, now) is None,
        window_over(d, now) <==> now >= d.window + 30_000_000_000,
{
}

} // verus!
