//! The shared session manager's decisions: one session per terminal session
//! name however many clients attach, its capture decisions, its input queue,
//! and its lifecycle (capture cancelled when the last client leaves, session
//! removed once a grace period passes with no client).
use dashmap::DashMap;
use std::collections::VecDeque;
use vstd::prelude::*;

use crate::hashing::{content_hash, xxh3_64_of};
use crate::input_batch::{
    action_views,
    command_views,
    plan,
    plan_input_batch,
    CommandView,
    InputAction,
    InputCommand,
};
use crate::protocol::{encode_frame, frame_spec, TYPE_OUTPUT};
use crate::ring_buffer::{ring_wf, write_outcome, OptimizedTerminalBuffer, RingView};

verus! {

broadcast use vstd::seq_lib::group_seq_properties;

/// How long a session with no client is kept, in milliseconds.
pub const GRACE_PERIOD_MS: u64 = 30000;

/// Consecutive capture failures after which the capture loop stops.
pub const MAX_CAPTURE_FAILURES: u32 = 10;

/// Manager settings.
pub struct ManagerConfig {
    /// How often to capture pane content (milliseconds).
    pub capture_interval_ms: u64,
    /// Maximum number of input commands handled per flush.
    pub max_input_batch: usize,
    /// Input flush period (milliseconds).
    pub input_batch_timeout_ms: u64,
    /// Capacity of each session's byte buffer.
    pub max_buffer_size: usize,
    /// Maximum number of captures running at once.
    pub max_concurrent_captures: usize,
}

impl Default for ManagerConfig {
    fn default() -> (r: Self)
        ensures
            r.capture_interval_ms == 33,
            r.max_input_batch == 100,
            r.input_batch_timeout_ms == 5,
            r.max_buffer_size == 10 * 1024 * 1024,
            r.max_concurrent_captures == 10,
    {
        ManagerConfig {
            capture_interval_ms: 33,
            max_input_batch: 100,
            input_batch_timeout_ms: 5,
            max_buffer_size: 10 * 1024 * 1024,
            max_concurrent_captures: 10,
        }
    }
}

/// Per-session counters.
#[derive(Debug, Clone, Copy, PartialEq, Eq, Structural)]
pub struct SessionStats {
    pub total_captures: u64,
    pub total_inputs: u64,
    pub bytes_captured: u64,
    pub capture_errors: u64,
    pub input_errors: u64,
}

pub open spec fn zero_stats() -> SessionStats {
    SessionStats { total_captures: 0, total_inputs: 0, bytes_captured: 0, capture_errors: 0, input_errors: 0 }
}

/// Commands waiting to be sent to the terminal session, in arrival order.
pub struct InputQueue {
    queue: VecDeque<InputCommand>,
}

/// What the capture source returned on one tick.
pub enum CaptureOutcome {
    Captured(String),
    Failed,
}

/// What the capture loop does next.
pub enum CaptureAction {
    /// No client: skip this tick.
    Idle,
    /// The content did not change: nothing to send.
    Unchanged,
    /// Send this frame to every client.
    Broadcast(Vec<u8>),
    /// The content could not be buffered; counted as a capture error.
    BufferRejected,
    /// The capture failed; wait briefly and try again.
    RetryLater,
    /// Too many consecutive failures: the capture loop ends.
    Stop,
}

/// A session as the manager sees it.
pub struct SessionView {
    pub clients: Seq<Seq<char>>,
    /// Set once the external session exists and the loops are running.
    pub ready: bool,
    pub capture_running: bool,
    /// When the last client left, while no client is attached.
    pub idle_since: Option<u64>,
    pub dimensions: (u16, u16),
    pub input: Seq<CommandView>,
    pub buffer: RingView,
    pub last_hash: u64,
    pub consecutive_failures: u32,
    pub stats: SessionStats,
}

/// One shared session.
pub struct SharedTmuxSession {
    name: String,
    dimensions: (u16, u16),
    buffer: OptimizedTerminalBuffer,
    clients: Vec<String>,
    ready: bool,
    capture_running: bool,
    idle_since: Option<u64>,
    input_queue: InputQueue,
    stats: SessionStats,
    last_hash: u64,
    consecutive_failures: u32,
}

/// Keeps every id but `id`.
pub open spec fn other_than(id: Seq<char>) -> spec_fn(Seq<char>) -> bool {
    |c: Seq<char>| c != id
}

/// Keeps the ids not listed in `gone`.
pub open spec fn not_in(gone: Seq<Seq<char>>) -> spec_fn(Seq<char>) -> bool {
    |c: Seq<char>| !gone.contains(c)
}

pub open spec fn string_views(s: Seq<String>) -> Seq<Seq<char>> {
    s.map_values(|x: String| x@)
}

impl SharedTmuxSession {
    pub closed spec fn view(&self) -> SessionView {
        SessionView {
            clients: string_views(self.clients@),
            ready: self.ready,
            capture_running: self.capture_running,
            idle_since: self.idle_since,
            dimensions: self.dimensions,
            input: command_views(self.input_queue.queue@),
            buffer: self.buffer.view(),
            last_hash: self.last_hash,
            consecutive_failures: self.consecutive_failures,
            stats: self.stats,
        }
    }

    pub open spec fn wf(&self) -> bool {
        ring_wf(self.view().buffer)
    }
}

/// A session being set up: no client, not ready, capture not running.
pub open spec fn fresh_session(buffer_size: usize) -> SessionView {
    SessionView {
        clients: seq![],
        ready: false,
        capture_running: false,
        idle_since: None,
        dimensions: (80, 24),
        input: seq![],
        buffer: RingView { data: seq![], readers: Map::empty(), max_size: buffer_size },
        last_hash: 0,
        consecutive_failures: 0,
        stats: zero_stats(),
    }
}

/// `x + 1` on a wrapping counter.
pub open spec fn bump(x: u64) -> u64 {
    x.wrapping_add(1)
}

/// Effect of a capture result on a session with clients: the action taken
/// and the session after.
pub open spec fn capture_spec(s: SessionView, outcome: Option<Seq<char>>) -> (CaptureActionView, SessionView) {
    match outcome {
        Some(content) => {
            let bytes = vstd::utf8::encode_utf8(content);
            let h = xxh3_64_of(bytes);
            let s1 = SessionView { consecutive_failures: 0, ..s };
            if h == s.last_hash {
                (CaptureActionView::Unchanged, s1)
            } else {
                let (res, buf) = write_outcome(s.buffer, bytes);
                let s2 = SessionView { last_hash: h, buffer: buf, ..s1 };
                if res is Err {
                    (
                        CaptureActionView::BufferRejected,
                        SessionView {
                            stats: SessionStats { capture_errors: bump(s.stats.capture_errors), ..s.stats },
                            ..s2
                        },
                    )
                } else {
                    (
                        CaptureActionView::Broadcast(frame_spec(TYPE_OUTPUT, bytes)),
                        SessionView {
                            stats: SessionStats {
                                total_captures: bump(s.stats.total_captures),
                                bytes_captured: s.stats.bytes_captured.wrapping_add(
                                    bytes.len() as u64,
                                ),
                                ..s.stats
                            },
                            ..s2
                        },
                    )
                }
            }
        },
        None => {
            let failures = if s.consecutive_failures < u32::MAX {
                (s.consecutive_failures + 1) as u32
            } else {
                s.consecutive_failures
            };
            let s1 = SessionView {
                consecutive_failures: failures,
                stats: SessionStats { capture_errors: bump(s.stats.capture_errors), ..s.stats },
                ..s
            };
            if failures >= MAX_CAPTURE_FAILURES {
                (CaptureActionView::Stop, SessionView { capture_running: false, ..s1 })
            } else {
                (CaptureActionView::RetryLater, s1)
            }
        },
    }
}

pub enum CaptureActionView {
    Idle,
    Unchanged,
    Broadcast(Seq<u8>),
    BufferRejected,
    RetryLater,
    Stop,
}

impl CaptureAction {
    pub open spec fn view(&self) -> CaptureActionView {
        match self {
            CaptureAction::Idle => CaptureActionView::Idle,
            CaptureAction::Unchanged => CaptureActionView::Unchanged,
            CaptureAction::Broadcast(f) => CaptureActionView::Broadcast(f@),
            CaptureAction::BufferRejected => CaptureActionView::BufferRejected,
            CaptureAction::RetryLater => CaptureActionView::RetryLater,
            CaptureAction::Stop => CaptureActionView::Stop,
        }
    }
}

impl CaptureOutcome {
    pub open spec fn view(&self) -> Option<Seq<char>> {
        match self {
            CaptureOutcome::Captured(c) => Some(c@),
            CaptureOutcome::Failed => None,
        }
    }
}

impl SharedTmuxSession {
    fn new(name: String, buffer_size: usize) -> (r: Self)
        ensures
            r.wf(),
            r.view() == fresh_session(buffer_size),
    {
        let r = SharedTmuxSession {
            name,
            dimensions: (80, 24),
            buffer: OptimizedTerminalBuffer::new(buffer_size),
            clients: Vec::new(),
            ready: false,
            capture_running: false,
            idle_since: None,
            input_queue: InputQueue { queue: VecDeque::new() },
            stats: SessionStats {
                total_captures: 0,
                total_inputs: 0,
                bytes_captured: 0,
                capture_errors: 0,
                input_errors: 0,
            },
            last_hash: 0,
            consecutive_failures: 0,
        };
        proof {
            assert(r.view().clients =~= Seq::<Seq<char>>::empty());
            assert(r.view().input =~= Seq::<CommandView>::empty());
            assert(r.view().buffer.readers =~= Map::<Seq<char>, usize>::empty());
        }
        r
    }

    /// Handles what one capture returned: unchanged content is skipped; new
    /// content is buffered and framed for broadcast; failures are counted and
    /// stop the loop once `MAX_CAPTURE_FAILURES` happen in a row.
    fn on_capture(&mut self, outcome: CaptureOutcome) -> (r: CaptureAction)
        requires
            old(self).wf(),
        ensures
            final(self).wf(),
            (r.view(), final(self).view()) == capture_spec(old(self).view(), outcome.view()),
    {
        match outcome {
            CaptureOutcome::Captured(content) => {
                self.consecutive_failures = 0;
                let bytes = content.as_str().as_bytes();
                let h = content_hash(bytes);
                if h == self.last_hash {
                    return CaptureAction::Unchanged;
                }
                self.last_hash = h;
                match self.buffer.write(bytes) {
                    Err(_) => {
                        self.stats.capture_errors = self.stats.capture_errors.wrapping_add(1);
                        CaptureAction::BufferRejected
                    },
                    Ok(()) => {
                        self.stats.total_captures = self.stats.total_captures.wrapping_add(1);
                        self.stats.bytes_captured = self.stats.bytes_captured.wrapping_add(
                            bytes.len() as u64,
                        );
                        CaptureAction::Broadcast(encode_frame(TYPE_OUTPUT, bytes))
                    },
                }
            },
            CaptureOutcome::Failed => {
                self.consecutive_failures = self.consecutive_failures.saturating_add(1);
                self.stats.capture_errors = self.stats.capture_errors.wrapping_add(1);
                if self.consecutive_failures >= MAX_CAPTURE_FAILURES {
                    self.capture_running = false;
                    CaptureAction::Stop
                } else {
                    CaptureAction::RetryLater
                }
            },
        }
    }
}

/// Sessions keyed by name.
pub type SessionMap = DashMap<String, SharedTmuxSession>;

/// The sessions held per name.
pub uninterp spec fn session_map_view(m: SessionMap) -> Map<Seq<char>, SessionView>;

/// Relies on `DashMap::new`: the map starts empty.
#[verifier::external_body]
fn sessions_new() -> (r: SessionMap)
    ensures
        session_map_view(r).dom() == Set::<Seq<char>>::empty(),
{
    DashMap::new()
}

/// Relies on `DashMap::insert`: the key now maps to the value.
#[verifier::external_body]
fn sessions_insert(m: &mut SessionMap, k: String, v: SharedTmuxSession)
    ensures
        session_map_view(*final(m)) == session_map_view(*old(m)).insert(k@, v.view()),
{
    m.insert(k, v);
}

/// Relies on `DashMap::remove`: the entry for the key is taken out and its
/// value returned, if there was one.
#[verifier::external_body]
fn sessions_take(m: &mut SessionMap, k: &str) -> (r: Option<SharedTmuxSession>)
    ensures
        session_map_view(*final(m)) == session_map_view(*old(m)).remove(k@),
        r is Some == session_map_view(*old(m)).contains_key(k@),
        r matches Some(s) ==> s.view() == session_map_view(*old(m))[k@],
{
    m.remove(k).map(|e| e.1)
}

/// Relies on `DashMap::contains_key`.
#[verifier::external_body]
fn sessions_contains(m: &SessionMap, k: &str) -> (r: bool)
    ensures
        r == session_map_view(*m).contains_key(k@),
{
    m.contains_key(k)
}

/// What a caller asking for a session must do.
#[derive(Debug, Clone, Copy, PartialEq, Eq, Structural)]
pub enum SessionRequest {
    /// The session is new: create the external session and start its loops,
    /// then report with `session_ready` (or `session_failed`).
    Create,
    /// The session exists already (or is being set up): use it.
    Join,
}

/// What removing a client led to.
#[derive(Debug, Clone, Copy, PartialEq, Eq, Structural)]
pub enum RemoveOutcome {
    /// No session of that name.
    NoSuchSession,
    /// Clients remain.
    Removed,
    /// That was the last client: the capture loop must be cancelled now, and
    /// the session is removed if still idle after the grace period.
    LastClientLeft,
}

/// What adding a client led to.
#[derive(Debug, Clone, Copy, PartialEq, Eq, Structural)]
pub enum AddOutcome {
    /// There was no session of that name: it now exists with this client, and
    /// the caller must create the external session and start its loops, then
    /// report with `session_ready` (or `session_failed`).
    CreateSession,
    /// The capture loop is running (or the session is still being set up).
    Joined,
    /// The capture loop had been cancelled and must be started again.
    RestartCapture,
}

#[derive(Debug, Clone, Copy, PartialEq, Eq, Structural)]
pub enum SessionError {
    NotFound,
}

pub open spec fn request_spec(m: Map<Seq<char>, SessionView>, name: Seq<char>, buffer_size: usize) -> (
    SessionRequest,
    Map<Seq<char>, SessionView>,
) {
    if m.contains_key(name) {
        (SessionRequest::Join, m)
    } else {
        (SessionRequest::Create, m.insert(name, fresh_session(buffer_size)))
    }
}

pub open spec fn add_client_spec(
    m: Map<Seq<char>, SessionView>,
    name: Seq<char>,
    id: Seq<char>,
    buffer_size: usize,
) -> (AddOutcome, Map<Seq<char>, SessionView>) {
    if !m.contains_key(name) {
        (
            AddOutcome::CreateSession,
            m.insert(name, SessionView { clients: seq![id], ..fresh_session(buffer_size) }),
        )
    } else {
        let s = m[name];
        let restart = s.ready && !s.capture_running;
        (
            if restart {
                AddOutcome::RestartCapture
            } else {
                AddOutcome::Joined
            },
            m.insert(
                name,
                SessionView {
                    clients: s.clients.push(id),
                    idle_since: None,
                    capture_running: s.capture_running || restart,
                    ..s
                },
            ),
        )
    }
}

pub open spec fn remove_client_spec(
    m: Map<Seq<char>, SessionView>,
    name: Seq<char>,
    id: Seq<char>,
    now: u64,
) -> (RemoveOutcome, Map<Seq<char>, SessionView>) {
    if !m.contains_key(name) {
        (RemoveOutcome::NoSuchSession, m)
    } else {
        let s = m[name];
        let rest = s.clients.filter(other_than(id));
        if rest.len() == 0 {
            (
                RemoveOutcome::LastClientLeft,
                m.insert(
                    name,
                    SessionView { clients: rest, capture_running: false, idle_since: Some(now), ..s },
                ),
            )
        } else {
            (RemoveOutcome::Removed, m.insert(name, SessionView { clients: rest, ..s }))
        }
    }
}

/// The session has had no client for at least the grace period.
pub open spec fn idle_expired(s: SessionView, now: u64) -> bool {
    &&& s.clients.len() == 0
    &&& s.idle_since matches Some(t)
    &&& now >= t
    &&& now - t >= GRACE_PERIOD_MS
}

pub open spec fn expire_spec(m: Map<Seq<char>, SessionView>, name: Seq<char>, now: u64) -> (
    bool,
    Map<Seq<char>, SessionView>,
) {
    if m.contains_key(name) && idle_expired(m[name], now) {
        (true, m.remove(name))
    } else {
        (false, m)
    }
}


/// When the last client leaves, the capture loop is cancelled. Until the
/// grace period has passed, the idle session is not removed: a new request
/// joins it instead of creating it again, and a client added to it keeps the
/// same buffer and counters and restarts the capture loop. Once the grace
/// period has passed with no client, the session is removed.
pub proof fn lemma_last_client_grace_period(
    m: Map<Seq<char>, SessionView>,
    name: Seq<char>,
    id: Seq<char>,
    other: Seq<char>,
    t0: u64,
    t1: u64,
    buffer_size: usize,
)
    requires
        m.contains_key(name),
        m[name].ready,
        m[name].clients == seq![id],
    ensures
        ({
            let (out, m1) = remove_client_spec(m, name, id, t0);
            &&& out == RemoveOutcome::LastClientLeft
            &&& m1.contains_key(name)
            &&& !m1[name].capture_running
            &&& m1[name].clients.len() == 0
            &&& (t0 <= t1 && t1 - t0 < GRACE_PERIOD_MS ==> {
                &&& expire_spec(m1, name, t1) == (false, m1)
                &&& request_spec(m1, name, buffer_size) == (SessionRequest::Join, m1)
                &&& add_client_spec(m1, name, other, buffer_size).0 == AddOutcome::RestartCapture
                &&& add_client_spec(m1, name, other, buffer_size).1[name].buffer == m[name].buffer
                &&& add_client_spec(m1, name, other, buffer_size).1[name].stats == m[name].stats
                &&& add_client_spec(m1, name, other, buffer_size).1[name].capture_running
                &&& add_client_spec(m1, name, other, buffer_size).1[name].clients == seq![other]
            })
            &&& (t0 <= t1 && t1 - t0 >= GRACE_PERIOD_MS ==> {
                &&& expire_spec(m1, name, t1).0
                &&& !expire_spec(m1, name, t1).1.contains_key(name)
            })
        }),
{
    let s = m[name];
    assert(seq![id].drop_last() =~= Seq::<Seq<char>>::empty());
    assert(s.clients.filter(other_than(id)).len() == 0) by {
        reveal_with_fuel(Seq::filter, 2);
    }
    let (out, m1) = remove_client_spec(m, name, id, t0);
    assert(out == RemoveOutcome::LastClientLeft);
    let s1 = m1[name];
    assert(s1.clients.len() == 0);
    assert(s1.idle_since == Some(t0));
    assert(!s1.capture_running);
    assert(s1.ready);
    if t0 <= t1 && t1 - t0 < GRACE_PERIOD_MS {
        assert(!idle_expired(s1, t1));
    }
    if t0 <= t1 && t1 - t0 >= GRACE_PERIOD_MS {
        assert(idle_expired(s1, t1));
    }
}

/// However many requests for one session name arrive, only the first creates
/// it; every later one joins.
pub proof fn lemma_only_first_request_creates(
    m: Map<Seq<char>, SessionView>,
    name: Seq<char>,
    buffer_size: usize,
)
    ensures
        request_spec(m, name, buffer_size).0 == SessionRequest::Create <==> !m.contains_key(name),
        request_spec(request_spec(m, name, buffer_size).1, name, buffer_size).0 == SessionRequest::Join,
{
}


/// Two clients joining a session name that does not exist yet: the first
/// join creates the session (the only creation), the second joins it, and
/// both clients are registered in order.
pub proof fn lemma_first_joins_create_once(
    m: Map<Seq<char>, SessionView>,
    name: Seq<char>,
    c1: Seq<char>,
    c2: Seq<char>,
    buffer_size: usize,
)
    requires
        !m.contains_key(name),
    ensures
        ({
            let (first, m1) = add_client_spec(m, name, c1, buffer_size);
            let (second, m2) = add_client_spec(m1, name, c2, buffer_size);
            &&& first == AddOutcome::CreateSession
            &&& second == AddOutcome::Joined
            &&& m2.dom() == m.dom().insert(name)
            &&& m2[name].clients == seq![c1, c2]
            &&& !m2[name].capture_running
        }),
{
    let (first, m1) = add_client_spec(m, name, c1, buffer_size);
    let (second, m2) = add_client_spec(m1, name, c2, buffer_size);
    assert(seq![c1].push(c2) =~= seq![c1, c2]);
    assert(m2.dom() =~= m.dom().insert(name));
}

/// Adding a client while the capture loop runs (or while the session is
/// still being set up) never starts a second capture loop.
pub proof fn lemma_join_keeps_single_capture(
    m: Map<Seq<char>, SessionView>,
    name: Seq<char>,
    id: Seq<char>,
    buffer_size: usize,
)
    requires
        m.contains_key(name),
        m[name].capture_running || !m[name].ready,
    ensures
        add_client_spec(m, name, id, buffer_size).0 == AddOutcome::Joined,
        add_client_spec(m, name, id, buffer_size).1[name].capture_running == m[name].capture_running,
{
}

/// One capture/input loop pair per session name, shared by all of its clients.
pub struct OptimizedSessionManager {
    sessions: SessionMap,
    config: ManagerConfig,
}

impl OptimizedSessionManager {
    pub closed spec fn sessions(&self) -> Map<Seq<char>, SessionView> {
        session_map_view(self.sessions)
    }

    /// Every session's buffer is well formed.
    pub closed spec fn wf(&self) -> bool {
        forall|k: Seq<char>| #[trigger] self.sessions().contains_key(k) ==> ring_wf(self.sessions()[k].buffer)
    }

    pub closed spec fn buffer_size(&self) -> usize {
        self.config.max_buffer_size
    }

    pub closed spec fn max_input_batch(&self) -> usize {
        self.config.max_input_batch
    }

    pub fn new(config: ManagerConfig) -> (r: Self)
        ensures
            r.wf(),
            r.sessions().dom() == Set::<Seq<char>>::empty(),
            r.buffer_size() == config.max_buffer_size,
            r.max_input_batch() == config.max_input_batch,
    {
        OptimizedSessionManager { sessions: sessions_new(), config }
    }

    fn take(&mut self, name: &str) -> (r: Option<SharedTmuxSession>)
        requires
            old(self).wf(),
        ensures
            final(self).wf(),
            final(self).sessions() == old(self).sessions().remove(name@),
            final(self).config == old(self).config,
            r is Some == old(self).sessions().contains_key(name@),
            r matches Some(s) ==> s.wf() && s.view() == old(self).sessions()[name@],
    {
        sessions_take(&mut self.sessions, name)
    }

    fn put(&mut self, name: &str, s: SharedTmuxSession)
        requires
            old(self).wf(),
            s.wf(),
        ensures
            final(self).wf(),
            final(self).sessions() == old(self).sessions().insert(name@, s.view()),
            final(self).config == old(self).config,
    {
        sessions_insert(&mut self.sessions, name.to_owned(), s);
    }

    /// Asks for the session `name`. The first request creates its entry and
    /// tells the caller to create the external session; every later request,
    /// concurrent or not, joins it.
    pub fn request_session(&mut self, name: &str) -> (r: SessionRequest)
        requires
            old(self).wf(),
        ensures
            final(self).wf(),
            (r, final(self).sessions()) == request_spec(old(self).sessions(), name@, old(self).buffer_size()),
            final(self).buffer_size() == old(self).buffer_size(),
            final(self).max_input_batch() == old(self).max_input_batch(),
    {
        if sessions_contains(&self.sessions, name) {
            SessionRequest::Join
        } else {
            let s = SharedTmuxSession::new(name.to_owned(), self.config.max_buffer_size);
            self.put(name, s);
            SessionRequest::Create
        }
    }

    /// The external session exists and the loops run: marks the session ready.
    /// Returns false if there is no such session.
    pub fn session_ready(&mut self, name: &str) -> (r: bool)
        requires
            old(self).wf(),
        ensures
            final(self).wf(),
            r == old(self).sessions().contains_key(name@),
            r ==> final(self).sessions() == old(self).sessions().insert(
                name@,
                SessionView { ready: true, capture_running: true, ..old(self).sessions()[name@] },
            ),
            !r ==> final(self).sessions() == old(self).sessions(),
            final(self).buffer_size() == old(self).buffer_size(),
            final(self).max_input_batch() == old(self).max_input_batch(),
    {
        match self.take(name) {
            Some(mut s) => {
                s.ready = true;
                s.capture_running = true;
                self.put(name, s);
                proof {
                    assert(old(self).sessions().remove(name@).insert(name@, s.view()) =~= old(
                        self,
                    ).sessions().insert(name@, s.view()));
                }
                true
            },
            None => {
                proof {
                    assert(old(self).sessions().remove(name@) =~= old(self).sessions());
                }
                false
            },
        }
    }

    /// Setting up the external session failed: forgets the session if it
    /// never became ready.
    pub fn session_failed(&mut self, name: &str)
        requires
            old(self).wf(),
        ensures
            final(self).wf(),
            old(self).sessions().contains_key(name@) && !old(self).sessions()[name@].ready
                ==> final(self).sessions() == old(self).sessions().remove(name@),
            !(old(self).sessions().contains_key(name@) && !old(self).sessions()[name@].ready)
                ==> final(self).sessions() == old(self).sessions(),
            final(self).buffer_size() == old(self).buffer_size(),
            final(self).max_input_batch() == old(self).max_input_batch(),
    {
        match self.take(name) {
            Some(s) => {
                if s.ready {
                    self.put(name, s);
                    proof {
                        assert(old(self).sessions().remove(name@).insert(name@, s.view()) =~= old(
                            self,
                        ).sessions());
                    }
                }
            },
            None => {
                proof {
                    assert(old(self).sessions().remove(name@) =~= old(self).sessions());
                }
            },
        }
    }

    /// Registers a client of session `name`, creating the session if there is
    /// none (the first of any number of concurrent joins creates it, the
    /// others join it). If the capture loop had been cancelled when the last
    /// client left, it is to be restarted.
    pub fn add_client_to_session(&mut self, name: &str, client_id: String) -> (r: AddOutcome)
        requires
            old(self).wf(),
        ensures
            final(self).wf(),
            (r, final(self).sessions()) == add_client_spec(
                old(self).sessions(),
                name@,
                client_id@,
                old(self).buffer_size(),
            ),
            final(self).buffer_size() == old(self).buffer_size(),
            final(self).max_input_batch() == old(self).max_input_batch(),
    {
        match self.take(name) {
            Some(mut s) => {
                let restart = s.ready && !s.capture_running;
                s.clients.push(client_id);
                s.idle_since = None;
                if restart {
                    s.capture_running = true;
                }
                proof {
                    assert(string_views(s.clients@) =~= old(self).sessions()[name@].clients.push(
                        client_id@,
                    ));
                }
                self.put(name, s);
                proof {
                    assert(old(self).sessions().remove(name@).insert(name@, s.view()) =~= old(
                        self,
                    ).sessions().insert(name@, s.view()));
                }
                if restart {
                    AddOutcome::RestartCapture
                } else {
                    AddOutcome::Joined
                }
            },
            None => {
                let mut s = SharedTmuxSession::new(name.to_owned(), self.config.max_buffer_size);
                s.clients.push(client_id);
                proof {
                    assert(string_views(s.clients@) =~= seq![client_id@]);
                    assert(old(self).sessions().remove(name@) =~= old(self).sessions());
                }
                self.put(name, s);
                AddOutcome::CreateSession
            },
        }
    }

    /// Deregisters a client. When the last client leaves, the capture loop is
    /// cancelled at once and the session is marked idle from `now_ms`.
    pub fn remove_client_from_session(&mut self, name: &str, client_id: &str, now_ms: u64) -> (r:
        RemoveOutcome)
        requires
            old(self).wf(),
        ensures
            final(self).wf(),
            (r, final(self).sessions()) == remove_client_spec(
                old(self).sessions(),
                name@,
                client_id@,
                now_ms,
            ),
            final(self).buffer_size() == old(self).buffer_size(),
            final(self).max_input_batch() == old(self).max_input_batch(),
    {
        match self.take(name) {
            Some(mut s) => {
                let ghost before = string_views(s.clients@);
                let target = client_id.to_owned();
                let mut kept: Vec<String> = Vec::new();
                let mut i: usize = 0;
                while i < s.clients.len()
                    invariant
                        i <= s.clients@.len(),
                        before == string_views(s.clients@),
                        target@ == client_id@,
                        string_views(kept@) == before.subrange(0, i as int).filter(
                            other_than(client_id@),
                        ),
                    decreases s.clients@.len() - i,
                {
                    proof {
                        assert(before.subrange(0, i + 1) =~= before.subrange(0, i as int).push(
                            before[i as int],
                        ));
                        before.subrange(0, i as int).lemma_filter_push(
                            before[i as int],
                            other_than(client_id@),
                        );
                    }
                    if s.clients[i] != target {
                        let c = s.clients[i].clone();
                        proof {
                            assert(string_views(kept@.push(c)) =~= string_views(kept@).push(c@));
                        }
                        kept.push(c);
                    }
                    i = i + 1;
                }
                proof {
                    assert(before.subrange(0, before.len() as int) =~= before);
                }
                s.clients = kept;
                let outcome = if s.clients.len() == 0 {
                    s.capture_running = false;
                    s.idle_since = Some(now_ms);
                    RemoveOutcome::LastClientLeft
                } else {
                    RemoveOutcome::Removed
                };
                self.put(name, s);
                proof {
                    assert(old(self).sessions().remove(name@).insert(name@, s.view()) =~= old(
                        self,
                    ).sessions().insert(name@, s.view()));
                }
                outcome
            },
            None => {
                proof {
                    assert(old(self).sessions().remove(name@) =~= old(self).sessions());
                }
                RemoveOutcome::NoSuchSession
            },
        }
    }

    /// Removes session `name` if it has had no client for the whole grace
    /// period as of `now_ms`; returns whether it was removed.
    pub fn expire_idle_session(&mut self, name: &str, now_ms: u64) -> (r: bool)
        requires
            old(self).wf(),
        ensures
            final(self).wf(),
            (r, final(self).sessions()) == expire_spec(old(self).sessions(), name@, now_ms),
            final(self).buffer_size() == old(self).buffer_size(),
            final(self).max_input_batch() == old(self).max_input_batch(),
    {
        match self.take(name) {
            Some(s) => {
                let expired = s.clients.len() == 0 && match s.idle_since {
                    Some(t) => now_ms >= t && now_ms - t >= GRACE_PERIOD_MS,
                    None => false,
                };
                if expired {
                    true
                } else {
                    self.put(name, s);
                    proof {
                        assert(old(self).sessions().remove(name@).insert(name@, s.view()) =~= old(
                            self,
                        ).sessions());
                    }
                    false
                }
            },
            None => {
                proof {
                    assert(old(self).sessions().remove(name@) =~= old(self).sessions());
                }
                false
            },
        }
    }

    /// Whether session `name` has clients, so that its capture loop should
    /// capture on this tick.
    pub fn has_clients(&mut self, name: &str) -> (r: bool)
        requires
            old(self).wf(),
        ensures
            final(self).wf(),
            final(self).sessions() == old(self).sessions(),
            final(self).buffer_size() == old(self).buffer_size(),
            final(self).max_input_batch() == old(self).max_input_batch(),
            r == (old(self).sessions().contains_key(name@) && old(self).sessions()[name@].clients.len()
                > 0),
    {
        match self.take(name) {
            Some(s) => {
                let r = s.clients.len() > 0;
                self.put(name, s);
                proof {
                    assert(old(self).sessions().remove(name@).insert(name@, s.view()) =~= old(
                        self,
                    ).sessions());
                }
                r
            },
            None => {
                proof {
                    assert(old(self).sessions().remove(name@) =~= old(self).sessions());
                }
                false
            },
        }
    }

    /// Handles what a capture of session `name` returned; `None` if there is
    /// no such session. With no client attached the result is ignored.
    pub fn capture_result(&mut self, name: &str, outcome: CaptureOutcome) -> (r: Option<CaptureAction>)
        requires
            old(self).wf(),
        ensures
            final(self).wf(),
            final(self).buffer_size() == old(self).buffer_size(),
            final(self).max_input_batch() == old(self).max_input_batch(),
            !old(self).sessions().contains_key(name@) ==> r is None && final(self).sessions() == old(
                self,
            ).sessions(),
            old(self).sessions().contains_key(name@) && old(self).sessions()[name@].clients.len() == 0
                ==> (r matches Some(a) && a.view() == CaptureActionView::Idle && final(self).sessions()
                == old(self).sessions()),
            old(self).sessions().contains_key(name@) && old(self).sessions()[name@].clients.len() > 0
                ==> (r matches Some(a) && ({
                let (action, after) = capture_spec(old(self).sessions()[name@], outcome.view());
                &&& a.view() == action
                &&& final(self).sessions() == old(self).sessions().insert(name@, after)
            })),
    {
        match self.take(name) {
            Some(mut s) => {
                if s.clients.len() == 0 {
                    self.put(name, s);
                    proof {
                        assert(old(self).sessions().remove(name@).insert(name@, s.view()) =~= old(
                            self,
                        ).sessions());
                    }
                    return Some(CaptureAction::Idle);
                }
                let action = s.on_capture(outcome);
                self.put(name, s);
                proof {
                    assert(old(self).sessions().remove(name@).insert(name@, s.view()) =~= old(
                        self,
                    ).sessions().insert(name@, s.view()));
                }
                Some(action)
            },
            None => {
                proof {
                    assert(old(self).sessions().remove(name@) =~= old(self).sessions());
                }
                None
            },
        }
    }

    /// Drops the clients whose channel failed during a broadcast; the list is
    /// changed only after the whole broadcast pass.
    pub fn prune_clients(&mut self, name: &str, failed: &Vec<String>)
        requires
            old(self).wf(),
        ensures
            final(self).wf(),
            final(self).buffer_size() == old(self).buffer_size(),
            final(self).max_input_batch() == old(self).max_input_batch(),
            !old(self).sessions().contains_key(name@) ==> final(self).sessions() == old(self).sessions(),
            old(self).sessions().contains_key(name@) ==> final(self).sessions() == old(self).sessions().insert(
                name@,
                SessionView {
                    clients: old(self).sessions()[name@].clients.filter(
                        not_in(string_views(failed@)),
                    ),
                    ..old(self).sessions()[name@]
                },
            ),
    {
        match self.take(name) {
            Some(mut s) => {
                let ghost before = string_views(s.clients@);
                let ghost gone = string_views(failed@);
                let mut kept: Vec<String> = Vec::new();
                let mut i: usize = 0;
                while i < s.clients.len()
                    invariant
                        i <= s.clients@.len(),
                        before == string_views(s.clients@),
                        gone == string_views(failed@),
                        string_views(kept@) == before.subrange(0, i as int).filter(
                            not_in(gone),
                        ),
                    decreases s.clients@.len() - i,
                {
                    proof {
                        assert(before.subrange(0, i + 1) =~= before.subrange(0, i as int).push(
                            before[i as int],
                        ));
                        before.subrange(0, i as int).lemma_filter_push(
                            before[i as int],
                            not_in(gone),
                        );
                    }
                    let mut hit = false;
                    let mut j: usize = 0;
                    while j < failed.len()
                        invariant
                            j <= failed@.len(),
                            i < s.clients@.len(),
                            gone == string_views(failed@),
                            hit == exists|x: int| 0 <= x < j && #[trigger] gone[x] == s.clients@[i as int]@,
                        decreases failed@.len() - j,
                    {
                        proof {
                            assert(gone[j as int] == failed@[j as int]@);
                        }
                        if failed[j] == s.clients[i] {
                            hit = true;
                        }
                        proof {
                            if !(failed@[j as int]@ == s.clients@[i as int]@) {
                                assert forall|x: int| 0 <= x < j + 1 && #[trigger] gone[x] == s.clients@[i as int]@
                                    implies 0 <= x < j by {}
                            }
                        }
                        j = j + 1;
                    }
                    proof {
                        assert(before[i as int] == s.clients@[i as int]@);
                        if hit {
                            let x = choose|x: int| 0 <= x < failed@.len() && #[trigger] gone[x] == s.clients@[i as int]@;
                            assert(gone.contains(before[i as int]));
                        } else {
                            assert(!gone.contains(before[i as int]));
                        }
                    }
                    if !hit {
                        let c = s.clients[i].clone();
                        proof {
                            assert(string_views(kept@.push(c)) =~= string_views(kept@).push(c@));
                        }
                        kept.push(c);
                    }
                    i = i + 1;
                }
                proof {
                    assert(before.subrange(0, before.len() as int) =~= before);
                }
                s.clients = kept;
                self.put(name, s);
                proof {
                    assert(old(self).sessions().remove(name@).insert(name@, s.view()) =~= old(
                        self,
                    ).sessions().insert(name@, s.view()));
                }
            },
            None => {
                proof {
                    assert(old(self).sessions().remove(name@) =~= old(self).sessions());
                }
            },
        }
    }

    fn enqueue(&mut self, name: &str, cmd: InputCommand) -> (r: Result<(), SessionError>)
        requires
            old(self).wf(),
        ensures
            final(self).wf(),
            final(self).buffer_size() == old(self).buffer_size(),
            final(self).max_input_batch() == old(self).max_input_batch(),
            r is Ok == old(self).sessions().contains_key(name@),
            r is Err ==> final(self).sessions() == old(self).sessions(),
            r is Ok ==> final(self).sessions() == old(self).sessions().insert(
                name@,
                SessionView {
                    input: old(self).sessions()[name@].input.push(cmd@),
                    ..old(self).sessions()[name@]
                },
            ),
    {
        match self.take(name) {
            Some(mut s) => {
                let ghost c = cmd@;
                s.input_queue.queue.push_back(cmd);
                proof {
                    assert(command_views(s.input_queue.queue@) =~= old(self).sessions()[name@].input.push(
                        c,
                    ));
                }
                self.put(name, s);
                proof {
                    assert(old(self).sessions().remove(name@).insert(name@, s.view()) =~= old(
                        self,
                    ).sessions().insert(name@, s.view()));
                }
                Ok(())
            },
            None => {
                proof {
                    assert(old(self).sessions().remove(name@) =~= old(self).sessions());
                }
                Err(SessionError::NotFound)
            },
        }
    }

    /// Queues text typed by a client.
    pub fn send_input(&mut self, name: &str, input: &str) -> (r: Result<(), SessionError>)
        requires
            old(self).wf(),
        ensures
            final(self).wf(),
            final(self).buffer_size() == old(self).buffer_size(),
            final(self).max_input_batch() == old(self).max_input_batch(),
            r is Ok == old(self).sessions().contains_key(name@),
            r is Err ==> final(self).sessions() == old(self).sessions(),
            r is Ok ==> final(self).sessions() == old(self).sessions().insert(
                name@,
                SessionView {
                    input: old(self).sessions()[name@].input.push(CommandView::Text(input@)),
                    ..old(self).sessions()[name@]
                },
            ),
    {
        self.enqueue(name, InputCommand::Text(input.to_owned()))
    }

    /// Queues a named key such as `Enter`.
    pub fn send_special_key(&mut self, name: &str, key: &str) -> (r: Result<(), SessionError>)
        requires
            old(self).wf(),
        ensures
            final(self).wf(),
            final(self).buffer_size() == old(self).buffer_size(),
            final(self).max_input_batch() == old(self).max_input_batch(),
            r is Ok == old(self).sessions().contains_key(name@),
            r is Err ==> final(self).sessions() == old(self).sessions(),
            r is Ok ==> final(self).sessions() == old(self).sessions().insert(
                name@,
                SessionView {
                    input: old(self).sessions()[name@].input.push(CommandView::SpecialKey(key@)),
                    ..old(self).sessions()[name@]
                },
            ),
    {
        self.enqueue(name, InputCommand::SpecialKey(key.to_owned()))
    }

    /// Records the new size and queues a resize.
    pub fn resize_session(&mut self, name: &str, cols: u16, rows: u16) -> (r: Result<(), SessionError>)
        requires
            old(self).wf(),
        ensures
            final(self).wf(),
            final(self).buffer_size() == old(self).buffer_size(),
            final(self).max_input_batch() == old(self).max_input_batch(),
            r is Ok == old(self).sessions().contains_key(name@),
            r is Err ==> final(self).sessions() == old(self).sessions(),
            r is Ok ==> final(self).sessions() == old(self).sessions().insert(
                name@,
                SessionView {
                    dimensions: (cols, rows),
                    input: old(self).sessions()[name@].input.push(CommandView::Resize(cols, rows)),
                    ..old(self).sessions()[name@]
                },
            ),
    {
        match self.take(name) {
            Some(mut s) => {
                s.dimensions = (cols, rows);
                s.input_queue.queue.push_back(InputCommand::Resize(cols, rows));
                proof {
                    assert(command_views(s.input_queue.queue@) =~= old(self).sessions()[name@].input.push(
                        CommandView::Resize(cols, rows),
                    ));
                }
                self.put(name, s);
                proof {
                    assert(old(self).sessions().remove(name@).insert(name@, s.view()) =~= old(
                        self,
                    ).sessions().insert(name@, s.view()));
                }
                Ok(())
            },
            None => {
                proof {
                    assert(old(self).sessions().remove(name@) =~= old(self).sessions());
                }
                Err(SessionError::NotFound)
            },
        }
    }

    /// The next batch of calls for session `name`, taken from the front of its
    /// input queue (at most `max_input_batch` commands); `None` if there is no
    /// such session.
    pub fn next_input_batch(&mut self, name: &str) -> (r: Option<Vec<InputAction>>)
        requires
            old(self).wf(),
        ensures
            final(self).wf(),
            final(self).buffer_size() == old(self).buffer_size(),
            final(self).max_input_batch() == old(self).max_input_batch(),
            r is Some == old(self).sessions().contains_key(name@),
            r is None ==> final(self).sessions() == old(self).sessions(),
            r matches Some(actions) ==> ({
                let q = old(self).sessions()[name@].input;
                let n = if q.len() < old(self).max_input_batch() {
                    q.len() as int
                } else {
                    old(self).max_input_batch() as int
                };
                &&& action_views(actions@) == plan(q.subrange(0, n))
                &&& final(self).sessions() == old(self).sessions().insert(
                    name@,
                    SessionView { input: q.subrange(n, q.len() as int), ..old(self).sessions()[name@] },
                )
            }),
    {
        match self.take(name) {
            Some(mut s) => {
                let ghost q = s.input_queue.queue@;
                let actions = plan_input_batch(&mut s.input_queue.queue, self.config.max_input_batch);
                proof {
                    let n = if q.len() < self.config.max_input_batch {
                        q.len() as int
                    } else {
                        self.config.max_input_batch as int
                    };
                    assert(command_views(q.subrange(0, n)) =~= command_views(q).subrange(0, n));
                    assert(command_views(s.input_queue.queue@) =~= command_views(q).subrange(
                        n,
                        q.len() as int,
                    ));
                }
                self.put(name, s);
                proof {
                    assert(old(self).sessions().remove(name@).insert(name@, s.view()) =~= old(
                        self,
                    ).sessions().insert(name@, s.view()));
                }
                Some(actions)
            },
            None => {
                proof {
                    assert(old(self).sessions().remove(name@) =~= old(self).sessions());
                }
                None
            },
        }
    }

    /// Counts a failed input call (`failed`) or a delivered batch of text.
    pub fn record_input_result(&mut self, name: &str, failed: bool)
        requires
            old(self).wf(),
        ensures
            final(self).wf(),
            final(self).buffer_size() == old(self).buffer_size(),
            final(self).max_input_batch() == old(self).max_input_batch(),
            !old(self).sessions().contains_key(name@) ==> final(self).sessions() == old(self).sessions(),
            old(self).sessions().contains_key(name@) ==> final(self).sessions() == old(self).sessions().insert(
                name@,
                SessionView {
                    stats: if failed {
                        SessionStats {
                            input_errors: bump(old(self).sessions()[name@].stats.input_errors),
                            ..old(self).sessions()[name@].stats
                        }
                    } else {
                        SessionStats {
                            total_inputs: bump(old(self).sessions()[name@].stats.total_inputs),
                            ..old(self).sessions()[name@].stats
                        }
                    },
                    ..old(self).sessions()[name@]
                },
            ),
    {
        match self.take(name) {
            Some(mut s) => {
                if failed {
                    s.stats.input_errors = s.stats.input_errors.wrapping_add(1);
                } else {
                    s.stats.total_inputs = s.stats.total_inputs.wrapping_add(1);
                }
                self.put(name, s);
                proof {
                    assert(old(self).sessions().remove(name@).insert(name@, s.view()) =~= old(
                        self,
                    ).sessions().insert(name@, s.view()));
                }
            },
            None => {
                proof {
                    assert(old(self).sessions().remove(name@) =~= old(self).sessions());
                }
            },
        }
    }

    /// The counters of session `name`.
    pub fn get_session_stats(&mut self, name: &str) -> (r: Option<SessionStats>)
        requires
            old(self).wf(),
        ensures
            final(self).wf(),
            final(self).sessions() == old(self).sessions(),
            final(self).buffer_size() == old(self).buffer_size(),
            final(self).max_input_batch() == old(self).max_input_batch(),
            r == (if old(self).sessions().contains_key(name@) {
                Some(old(self).sessions()[name@].stats)
            } else {
                None
            }),
    {
        match self.take(name) {
            Some(s) => {
                let stats = s.stats;
                self.put(name, s);
                proof {
                    assert(old(self).sessions().remove(name@).insert(name@, s.view()) =~= old(
                        self,
                    ).sessions());
                }
                Some(stats)
            },
            None => {
                proof {
                    assert(old(self).sessions().remove(name@) =~= old(self).sessions());
                }
                None
            },
        }
    }
}

} // verus!
