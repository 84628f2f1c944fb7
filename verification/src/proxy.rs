//! The core of a single-upstream forwarding proxy: one shared, exclusively
//! held connection to the upstream, re-established when it breaks; one
//! forwarding session per client connection, each serving its requests in
//! order and answering with a gateway-failure response when the upstream
//! cannot be reached; and a classifier that bounds each failure's reach.
//!
//! The transport itself is outside the core: every step takes as arguments
//! what the wire and the connect attempts did, and the contracts pin the
//! next state and outcome for every such environment.

use vstd::prelude::*;

verus! {

/// A request as the core sees it: an opaque payload that is handed to the
/// upstream exactly once and cannot be retried after a transport failure.
#[derive(PartialEq, Eq, Debug)]
pub struct Request {
    pub bytes: Vec<u8>,
}

/// A response as the core sees it: a status and an opaque payload written
/// back to the client verbatim.
#[derive(PartialEq, Eq, Debug)]
pub struct Response {
    pub status: u16,
    pub body: Vec<u8>,
}

/// The status of the synthesized gateway-failure response.
pub open spec fn gateway_status() -> u16 {
    502
}

/// The tagged result of one forward attempt: either the upstream's
/// response, or the news that the transport failed and the request must
/// not be retried.
#[derive(PartialEq, Eq, Debug)]
pub enum ExchangeOutcome {
    Delivered(Response),
    UpstreamUnavailable,
}

/// What the wire did during one send/receive attempt.
#[derive(PartialEq, Eq, Debug)]
pub enum TransportEvent {
    Replied(Response),
    Broken,
}

/// What one attempt to (re)connect to the upstream did.
#[derive(Clone, Copy, PartialEq, Eq, Structural, Debug)]
pub enum ConnectEvent {
    Established,
    Refused,
}

/// What reading the next request from a client yielded: a request, or
/// the end of that connection (disconnect or malformed input).
#[derive(PartialEq, Eq, Debug)]
pub enum ReadEvent {
    Received(Request),
    ClientGone,
}

/// A response at the level of the model: status and body bytes.
pub open spec fn response_view(r: Response) -> (u16, Seq<u8>) {
    (r.status, r.body@)
}

/// A transport event at the level of the model: `None` is a broken wire.
pub open spec fn transport_view(t: TransportEvent) -> Option<(u16, Seq<u8>)> {
    match t {
        TransportEvent::Replied(r) => Some(response_view(r)),
        TransportEvent::Broken => None,
    }
}

/// An exchange outcome at the level of the model: `None` is
/// `UpstreamUnavailable`.
pub open spec fn outcome_view(o: ExchangeOutcome) -> Option<(u16, Seq<u8>)> {
    match o {
        ExchangeOutcome::Delivered(r) => Some(response_view(r)),
        ExchangeOutcome::UpstreamUnavailable => None,
    }
}

/// A read event at the level of the model: the request's bytes, or
/// `None` when the client connection ended.
pub open spec fn read_view(e: ReadEvent) -> Option<Seq<u8>> {
    match e {
        ReadEvent::Received(q) => Some(q.bytes@),
        ReadEvent::ClientGone => None,
    }
}

/// The abstract state of the upstream connection manager: whether a live
/// transport is held, how many connections have been established, and
/// every request put on the wire, oldest first.
#[verifier::ext_equal]
pub struct ManagerState {
    pub connected: bool,
    pub generation: nat,
    pub wire_log: Seq<Seq<u8>>,
}

/// One exchange as a transition of the manager model. The request is
/// sent at most once: when no transport is held and a lazy reconnect is
/// refused, it never reaches the wire; in every other case it is sent
/// exactly once, and a broken wire surfaces as `None` (gateway failure)
/// while the manager reconnects, or is left to reconnect lazily on the
/// next exchange if the attempt is refused or already spent.
pub open spec fn exchange_step(
    m: ManagerState,
    req: Seq<u8>,
    wire: Option<(u16, Seq<u8>)>,
    reconnect_ok: bool,
) -> (ManagerState, Option<(u16, Seq<u8>)>) {
    if !m.connected {
        if !reconnect_ok {
            (m, None::<(u16, Seq<u8>)>)
        } else {
            match wire {
                Some(resp) => (
                    ManagerState {
                        connected: true,
                        generation: m.generation + 1,
                        wire_log: m.wire_log.push(req),
                    },
                    Some(resp),
                ),
                None => (
                    ManagerState {
                        connected: false,
                        generation: m.generation + 1,
                        wire_log: m.wire_log.push(req),
                    },
                    None::<(u16, Seq<u8>)>,
                ),
            }
        }
    } else {
        match wire {
            Some(resp) => (
                ManagerState {
                    connected: true,
                    generation: m.generation,
                    wire_log: m.wire_log.push(req),
                },
                Some(resp),
            ),
            None => (
                ManagerState {
                    connected: reconnect_ok,
                    generation: if reconnect_ok {
                        m.generation + 1
                    } else {
                        m.generation
                    },
                    wire_log: m.wire_log.push(req),
                },
                None::<(u16, Seq<u8>)>,
            ),
        }
    }
}

/// The abstract state of one forwarding session: whether its client
/// connection is still open, and each served request with the response
/// written back for it, oldest first.
#[verifier::ext_equal]
pub struct SessionModel {
    pub open_conn: bool,
    pub served: Seq<(Seq<u8>, (u16, Seq<u8>))>,
}

/// One session step as a transition of the session and manager models:
/// read one request (or lose the client), forward it through the shared
/// manager, and write back the upstream's response or the synthesized
/// gateway failure. A failed client write closes only this session.
pub open spec fn session_step(
    s: SessionModel,
    m: ManagerState,
    read: Option<Seq<u8>>,
    wire: Option<(u16, Seq<u8>)>,
    reconnect_ok: bool,
    write_ok: bool,
) -> (SessionModel, ManagerState) {
    if !s.open_conn {
        (s, m)
    } else {
        match read {
            None => (SessionModel { open_conn: false, served: s.served }, m),
            Some(req) => {
                let stepped = exchange_step(m, req, wire, reconnect_ok);
                let resp = match stepped.1 {
                    Some(r) => r,
                    None => (gateway_status(), Seq::<u8>::empty()),
                };
                if write_ok {
                    (
                        SessionModel { open_conn: true, served: s.served.push((req, resp)) },
                        stepped.0,
                    )
                } else {
                    (SessionModel { open_conn: false, served: s.served }, stepped.0)
                }
            },
        }
    }
}

/// The upstream connection manager: the single shared handle to the
/// upstream. It is held exclusively for the whole of each exchange, so
/// no two exchanges ever interleave on the wire.
pub struct UpstreamManager {
    pub connected: bool,
    pub generation: u64,
    pub wire_log: Vec<Request>,
}

/// The fatal startup failures: these stop the whole process.
#[derive(Clone, Copy, PartialEq, Eq, Structural, Debug)]
pub enum StartupError {
    /// The first connection to the upstream could not be established.
    ConnectFailed,
}

impl UpstreamManager {
    /// This manager as the model sees it.
    pub open spec fn model(&self) -> ManagerState {
        ManagerState {
            connected: self.connected,
            generation: self.generation as nat,
            wire_log: self.wire_log@.map_values(|r: Request| r.bytes@),
        }
    }

    /// Start the manager from the outcome of the first connect attempt;
    /// an unreachable upstream at startup is fatal.
    pub fn startup(first_connect: ConnectEvent) -> (r: Result<UpstreamManager, StartupError>)
        ensures
            first_connect is Established ==> (r matches Ok(m) && m.connected && m.generation == 1
                && m.wire_log@.len() == 0),
            first_connect is Refused ==> r == Err::<UpstreamManager, StartupError>(
                StartupError::ConnectFailed,
            ),
    {
        match first_connect {
            ConnectEvent::Established => Ok(
                UpstreamManager { connected: true, generation: 1, wire_log: Vec::new() },
            ),
            ConnectEvent::Refused => Err(StartupError::ConnectFailed),
        }
    }

    /// Record that the held transport was observed dead between
    /// exchanges (peer closed, reset); the next exchange reconnects.
    pub fn notify_broken(&mut self)
        ensures
            !final(self).connected,
            final(self).generation == old(self).generation,
            final(self).wire_log@ == old(self).wire_log@,
    {
        self.connected = false;
    }

    /// Perform one exchange: send `req` over the held transport and
    /// await its response, reconnecting lazily or on failure as the
    /// model's `exchange_step` says. `req` is consumed whatever the
    /// outcome: a request that hit a broken transport is never retried.
    pub fn exchange(
        &mut self,
        req: Request,
        transport: TransportEvent,
        reconnect: ConnectEvent,
    ) -> (r: ExchangeOutcome)
        requires
            old(self).generation < u64::MAX,
        ensures
            final(self).model() == exchange_step(
                old(self).model(),
                req.bytes@,
                transport_view(transport),
                reconnect is Established,
            ).0,
            outcome_view(r) == exchange_step(
                old(self).model(),
                req.bytes@,
                transport_view(transport),
                reconnect is Established,
            ).1,
            final(self).generation >= old(self).generation,
    {
        let ghost pre = self.model();
        let ghost req_bytes = req.bytes@;
        if !self.connected {
            match reconnect {
                ConnectEvent::Refused => {
                    proof {
                        assert(final(self).model() =~~= exchange_step(
                            pre,
                            req_bytes,
                            transport_view(transport),
                            false,
                        ).0);
                    }
                    return ExchangeOutcome::UpstreamUnavailable;
                },
                ConnectEvent::Established => {
                    self.generation = self.generation + 1;
                    self.wire_log.push(req);
                    match transport {
                        TransportEvent::Replied(resp) => {
                            self.connected = true;
                            proof {
                                assert(final(self).model().wire_log =~~= pre.wire_log.push(
                                    req_bytes,
                                ));
                                assert(final(self).model() =~~= exchange_step(
                                    pre,
                                    req_bytes,
                                    transport_view(transport),
                                    true,
                                ).0);
                            }
                            ExchangeOutcome::Delivered(resp)
                        },
                        TransportEvent::Broken => {
                            self.connected = false;
                            proof {
                                assert(final(self).model().wire_log =~~= pre.wire_log.push(
                                    req_bytes,
                                ));
                                assert(final(self).model() =~~= exchange_step(
                                    pre,
                                    req_bytes,
                                    transport_view(transport),
                                    true,
                                ).0);
                            }
                            ExchangeOutcome::UpstreamUnavailable
                        },
                    }
                },
            }
        } else {
            self.wire_log.push(req);
            match transport {
                TransportEvent::Replied(resp) => {
                    proof {
                        assert(final(self).model().wire_log =~~= pre.wire_log.push(req_bytes));
                        assert(final(self).model() =~~= exchange_step(
                            pre,
                            req_bytes,
                            transport_view(transport),
                            reconnect is Established,
                        ).0);
                    }
                    ExchangeOutcome::Delivered(resp)
                },
                TransportEvent::Broken => {
                    match reconnect {
                        ConnectEvent::Established => {
                            self.generation = self.generation + 1;
                            self.connected = true;
                        },
                        ConnectEvent::Refused => {
                            self.connected = false;
                        },
                    }
                    proof {
                        assert(final(self).model().wire_log =~~= pre.wire_log.push(req_bytes));
                        assert(final(self).model() =~~= exchange_step(
                            pre,
                            req_bytes,
                            transport_view(transport),
                            reconnect is Established,
                        ).0);
                    }
                    ExchangeOutcome::UpstreamUnavailable
                },
            }
        }
    }
}

/// The synthesized response a client receives when the upstream could
/// not serve its request: bad gateway, empty body.
pub fn gateway_failure_response() -> (r: Response)
    ensures
        r.status == gateway_status(),
        r.body@ == Seq::<u8>::empty(),
{
    let r = Response { status: 502, body: Vec::new() };
    proof {
        assert(r.body@ =~= Seq::<u8>::empty());
    }
    r
}

/// The lifecycle of one forwarding session.
#[derive(Clone, Copy, PartialEq, Eq, Structural, Debug)]
pub enum SessionState {
    /// Waiting to decode the next request from the client.
    AwaitingRequest,
    /// The client connection has been released.
    Closed,
}

/// The views of a sequence of responses.
pub open spec fn response_views(rs: Seq<Response>) -> Seq<(u16, Seq<u8>)> {
    rs.map_values(|r: Response| response_view(r))
}

/// The responses of a served log.
pub open spec fn served_responses(s: Seq<(Seq<u8>, (u16, Seq<u8>))>) -> Seq<(u16, Seq<u8>)> {
    s.map_values(|p: (Seq<u8>, (u16, Seq<u8>))| p.1)
}

/// One forwarding session: owns one client connection, decodes one
/// request at a time, forwards it through the shared manager, and writes
/// the response (or the synthesized gateway failure) back.
pub struct Forwarder {
    pub state: SessionState,
    /// The responses written back to this client, oldest first.
    pub written: Vec<Response>,
    /// Each request served with the response written for it.
    pub served: Ghost<Seq<(Seq<u8>, (u16, Seq<u8>))>>,
}

impl Forwarder {
    /// This session as the model sees it.
    pub open spec fn model(&self) -> SessionModel {
        SessionModel { open_conn: self.state is AwaitingRequest, served: self.served@ }
    }

    /// The responses written agree with the served log.
    pub open spec fn wf(&self) -> bool {
        response_views(self.written@) == served_responses(self.served@)
    }

    /// A fresh session for a newly accepted client connection.
    pub fn accept() -> (r: Forwarder)
        ensures
            r.model() == (SessionModel { open_conn: true, served: Seq::empty() }),
            r.wf(),
    {
        let r = Forwarder {
            state: SessionState::AwaitingRequest,
            written: Vec::new(),
            served: Ghost(Seq::empty()),
        };
        proof {
            assert(r.model() =~~= SessionModel { open_conn: true, served: Seq::empty() });
            assert(response_views(r.written@) =~~= served_responses(r.served@));
        }
        r
    }

    /// Serve one read from the client: forward the request through the
    /// shared manager and write back what the model's `session_step`
    /// says; a lost client or a failed write closes only this session
    /// and never touches the manager's connection.
    pub fn serve_step(
        &mut self,
        mgr: &mut UpstreamManager,
        read: ReadEvent,
        transport: TransportEvent,
        reconnect: ConnectEvent,
        write_ok: bool,
    )
        requires
            old(mgr).generation < u64::MAX,
            old(self).wf(),
        ensures
            final(self).model() == session_step(
                old(self).model(),
                old(mgr).model(),
                read_view(read),
                transport_view(transport),
                reconnect is Established,
                write_ok,
            ).0,
            final(mgr).model() == session_step(
                old(self).model(),
                old(mgr).model(),
                read_view(read),
                transport_view(transport),
                reconnect is Established,
                write_ok,
            ).1,
            final(self).wf(),
    {
        let ghost s0 = self.model();
        let ghost m0 = mgr.model();
        match self.state {
            SessionState::Closed => {
                proof {
                    assert(final(self).model() =~~= s0);
                }
            },
            SessionState::AwaitingRequest => {
                match read {
                    ReadEvent::ClientGone => {
                        self.state = SessionState::Closed;
                        proof {
                            assert(final(self).model() =~~= session_step(
                                s0,
                                m0,
                                read_view(read),
                                transport_view(transport),
                                reconnect is Established,
                                write_ok,
                            ).0);
                        }
                    },
                    ReadEvent::Received(req) => {
                        let ghost req_bytes = req.bytes@;
                        let outcome = mgr.exchange(req, transport, reconnect);
                        let resp = match outcome {
                            ExchangeOutcome::Delivered(r) => r,
                            ExchangeOutcome::UpstreamUnavailable => gateway_failure_response(),
                        };
                        let ghost resp_v = response_view(resp);
                        let ghost resp_g = resp;
                        if write_ok {
                            self.written.push(resp);
                            proof {
                                self.served@ = self.served@.push((req_bytes, resp_v));
                            }
                            proof {
                                assert(final(self).written@ == old(self).written@.push(resp_g));
                                assert(response_views(old(self).written@.push(resp_g)) =~~=
                                    response_views(old(self).written@).push(response_view(resp_g)));
                                assert(served_responses(old(self).served@.push((req_bytes, resp_v)))
                                    =~~= served_responses(old(self).served@).push(resp_v));
                                assert(response_views(final(self).written@) =~~= served_responses(
                                    final(self).served@,
                                ));
                                assert(final(self).model() =~~= session_step(
                                    s0,
                                    m0,
                                    read_view(read),
                                    transport_view(transport),
                                    reconnect is Established,
                                    write_ok,
                                ).0);
                            }
                        } else {
                            self.state = SessionState::Closed;
                            proof {
                                assert(final(self).model() =~~= session_step(
                                    s0,
                                    m0,
                                    read_view(read),
                                    transport_view(transport),
                                    reconnect is Established,
                                    write_ok,
                                ).0);
                            }
                        }
                    },
                }
            },
        }
    }
}

/// Where a failure arose.
#[derive(Clone, Copy, PartialEq, Eq, Structural, Debug)]
pub enum FailureKind {
    /// The held upstream transport failed mid-exchange (reset, broken
    /// pipe, unexpected end of stream).
    UpstreamTransport,
    /// A client's request could not be decoded, or the client vanished.
    ClientDecode,
    /// Writing a response back to a client failed.
    ClientWrite,
    /// Binding the listening address failed.
    Bind,
    /// The first connection to the upstream, at startup, failed.
    StartupConnect,
    /// A reconnect attempt after a transport break failed.
    ReconnectConnect,
    /// Accepting one connection failed transiently (such as resource
    /// exhaustion).
    AcceptTransient,
    /// The listener itself is gone.
    AcceptFatal,
}

/// How far a failure may reach.
#[derive(Clone, Copy, PartialEq, Eq, Structural, Debug)]
pub enum FailureScope {
    /// Fail only the current exchange and reconnect the upstream.
    ExchangeOnly,
    /// Close only the affected client connection.
    ClientConnectionOnly,
    /// Log and keep accepting.
    ContinueAccepting,
    /// Stop the whole process.
    Fatal,
}

/// The blast radius of each failure: upstream transport troubles are
/// contained to the exchange that hit them, client-side troubles to that
/// one connection, and only losing the listener or the very first
/// upstream connection stops the process.
pub open spec fn classify_spec(kind: FailureKind) -> FailureScope {
    match kind {
        FailureKind::UpstreamTransport => FailureScope::ExchangeOnly,
        FailureKind::ClientDecode => FailureScope::ClientConnectionOnly,
        FailureKind::ClientWrite => FailureScope::ClientConnectionOnly,
        FailureKind::Bind => FailureScope::Fatal,
        FailureKind::StartupConnect => FailureScope::Fatal,
        FailureKind::ReconnectConnect => FailureScope::ExchangeOnly,
        FailureKind::AcceptTransient => FailureScope::ContinueAccepting,
        FailureKind::AcceptFatal => FailureScope::Fatal,
    }
}

/// Decide a failure's blast radius.
pub fn classify(kind: FailureKind) -> (r: FailureScope)
    ensures
        r == classify_spec(kind),
{
    match kind {
        FailureKind::UpstreamTransport => FailureScope::ExchangeOnly,
        FailureKind::ClientDecode => FailureScope::ClientConnectionOnly,
        FailureKind::ClientWrite => FailureScope::ClientConnectionOnly,
        FailureKind::Bind => FailureScope::Fatal,
        FailureKind::StartupConnect => FailureScope::Fatal,
        FailureKind::ReconnectConnect => FailureScope::ExchangeOnly,
        FailureKind::AcceptTransient => FailureScope::ContinueAccepting,
        FailureKind::AcceptFatal => FailureScope::Fatal,
    }
}

/// Law: a broken upstream transport, a failed reconnect, or a failure
/// local to one client never stops the proxy as a whole.
pub proof fn lemma_contained_failures_never_fatal(kind: FailureKind)
    ensures
        (kind is UpstreamTransport || kind is ClientDecode || kind is ClientWrite
            || kind is ReconnectConnect || kind is AcceptTransient) ==> classify_spec(kind)
            != FailureScope::Fatal,
{
}

/// One scheduled event of a run: which session the scheduler picked and
/// what the environment did for its step.
pub struct RunEvent {
    pub client: int,
    pub read: Option<Seq<u8>>,
    pub wire: Option<(u16, Seq<u8>)>,
    pub reconnect_ok: bool,
    pub write_ok: bool,
}

/// The request an event carries (meaningful when its read yielded one).
pub open spec fn event_request(e: RunEvent) -> Seq<u8> {
    match e.read {
        Some(q) => q,
        None => Seq::empty(),
    }
}

/// The requests of a script's events, in script order.
pub open spec fn script_requests(script: Seq<RunEvent>) -> Seq<Seq<u8>> {
    script.map_values(|e: RunEvent| event_request(e))
}

/// A run of one session: its own reads, in order, against the shared
/// manager.
pub open spec fn session_run(s: SessionModel, m: ManagerState, script: Seq<RunEvent>) -> (
    SessionModel,
    ManagerState,
)
    decreases script.len(),
{
    if script.len() == 0 {
        (s, m)
    } else {
        let stepped = session_step(
            s,
            m,
            script[0].read,
            script[0].wire,
            script[0].reconnect_ok,
            script[0].write_ok,
        );
        session_run(stepped.0, stepped.1, script.drop_first())
    }
}

/// A run of many sessions sharing one manager: at each step the
/// scheduler picks one session, which performs one whole step — the
/// exclusive hold on the manager makes each exchange atomic.
pub open spec fn run(
    sessions: Map<int, SessionModel>,
    m: ManagerState,
    script: Seq<RunEvent>,
) -> (Map<int, SessionModel>, ManagerState)
    decreases script.len(),
{
    if script.len() == 0 {
        (sessions, m)
    } else {
        let e = script[0];
        if sessions.dom().contains(e.client) {
            let stepped = session_step(
                sessions[e.client],
                m,
                e.read,
                e.wire,
                e.reconnect_ok,
                e.write_ok,
            );
            run(sessions.insert(e.client, stepped.0), stepped.1, script.drop_first())
        } else {
            run(sessions, m, script.drop_first())
        }
    }
}

/// Law: within one client connection, requests are served in the order
/// submitted. After any run whose reads all yield a request and whose
/// writes succeed, the session's served log extends the old one by
/// exactly those requests in submission order — whatever the upstream
/// transport and the reconnect attempts did at every step.
pub proof fn lemma_requests_served_in_order(
    s: SessionModel,
    m: ManagerState,
    script: Seq<RunEvent>,
)
    requires
        s.open_conn,
        forall|k: int|
            0 <= k < script.len() ==> (#[trigger] script[k]).read is Some && script[k].write_ok,
    ensures
        session_run(s, m, script).0.open_conn,
        session_run(s, m, script).0.served.len() == s.served.len() + script.len(),
        forall|k: int|
            0 <= k < s.served.len() ==> session_run(s, m, script).0.served[k] == s.served[k],
        forall|k: int|
            0 <= k < script.len() ==> (#[trigger] session_run(s, m, script).0.served[s.served.len()
                + k]).0 == event_request(script[k]),
    decreases script.len(),
{
    if script.len() == 0 {
    } else {
        let e = script[0];
        let stepped = session_step(s, m, e.read, e.wire, e.reconnect_ok, e.write_ok);
        assert(stepped.0.open_conn);
        assert(stepped.0.served == s.served.push((event_request(e), stepped.0.served.last().1)));
        lemma_requests_served_in_order(stepped.0, stepped.1, script.drop_first());
        let out = session_run(s, m, script).0;
        assert(out == session_run(stepped.0, stepped.1, script.drop_first()).0);
        assert forall|k: int| 0 <= k < s.served.len() implies out.served[k] == s.served[k] by {
            assert(out.served[k] == stepped.0.served[k]);
            assert(stepped.0.served[k] == s.served[k]);
        }
        assert forall|k: int| 0 <= k < script.len() implies (#[trigger] out.served[s.served.len()
            + k]).0 == event_request(script[k]) by {
            if k == 0 {
                assert(out.served[s.served.len() as int] == stepped.0.served[s.served.len() as int]);
            } else {
                assert(script.drop_first()[k - 1] == script[k]);
                assert(out.served[stepped.0.served.len() + (k - 1)].0 == event_request(
                    script.drop_first()[k - 1],
                ));
            }
        }
    }
}

/// Law: exchanges against the shared upstream are strictly serialized.
/// Whatever the schedule across any number of sessions, the wire sees a
/// single totally ordered log: what was on the wire before the run is
/// still there, in order, and each scheduled step puts at most one
/// request on the wire.
pub proof fn lemma_exchanges_serialized(
    sessions: Map<int, SessionModel>,
    m: ManagerState,
    script: Seq<RunEvent>,
)
    ensures
        m.wire_log.is_prefix_of(run(sessions, m, script).1.wire_log),
        run(sessions, m, script).1.wire_log.len() <= m.wire_log.len() + script.len(),
    decreases script.len(),
{
    if script.len() == 0 {
        assert(m.wire_log.is_prefix_of(m.wire_log)) by {
            assert(m.wire_log =~= m.wire_log.take(m.wire_log.len() as int));
        }
    } else {
        let e = script[0];
        if sessions.dom().contains(e.client) {
            let stepped = session_step(sessions[e.client], m, e.read, e.wire, e.reconnect_ok, e.write_ok);
            lemma_exchanges_serialized(
                sessions.insert(e.client, stepped.0),
                stepped.1,
                script.drop_first(),
            );
            assert(m.wire_log.is_prefix_of(stepped.1.wire_log)) by {
                assert(stepped.1.wire_log == m.wire_log || stepped.1.wire_log == m.wire_log.push(
                    stepped.1.wire_log.last(),
                ));
                assert(m.wire_log =~= stepped.1.wire_log.take(m.wire_log.len() as int));
            }
            let fin = run(sessions, m, script).1.wire_log;
            assert(m.wire_log =~= fin.take(m.wire_log.len() as int)) by {
                assert(stepped.1.wire_log =~= fin.take(stepped.1.wire_log.len() as int));
                assert(m.wire_log =~= stepped.1.wire_log.take(m.wire_log.len() as int));
            }
        } else {
            lemma_exchanges_serialized(sessions, m, script.drop_first());
        }
    }
}

/// Law: while the upstream stays healthy, a run of any schedule whose
/// reads all yield requests forwards exactly one exchange per request,
/// in schedule order: the upstream observes the scheduled requests as a
/// sequential log, on the connection it already held.
pub proof fn lemma_healthy_run_sequential(
    sessions: Map<int, SessionModel>,
    m: ManagerState,
    script: Seq<RunEvent>,
)
    requires
        m.connected,
        forall|c: int| sessions.dom().contains(c) ==> (#[trigger] sessions[c]).open_conn,
        forall|k: int|
            0 <= k < script.len() ==> (#[trigger] script[k]).read is Some && script[k].wire is Some
                && script[k].write_ok && sessions.dom().contains(script[k].client),
    ensures
        run(sessions, m, script).1.connected,
        run(sessions, m, script).1.generation == m.generation,
        run(sessions, m, script).1.wire_log =~~= m.wire_log + script_requests(script),
    decreases script.len(),
{
    if script.len() == 0 {
        assert(m.wire_log + script_requests(script) =~~= m.wire_log);
    } else {
        let e = script[0];
        let stepped = session_step(sessions[e.client], m, e.read, e.wire, e.reconnect_ok, e.write_ok);
        assert(sessions[e.client].open_conn);
        assert(stepped.1.connected && stepped.1.generation == m.generation);
        assert(stepped.1.wire_log =~~= m.wire_log.push(event_request(e)));
        let inserted = sessions.insert(e.client, stepped.0);
        assert(stepped.0.open_conn);
        assert forall|c: int| inserted.dom().contains(c) implies (
        #[trigger] inserted[c]).open_conn by {
            if c != e.client {
                assert(inserted[c] == sessions[c]);
            }
        }
        lemma_healthy_run_sequential(inserted, stepped.1, script.drop_first());
        assert(script_requests(script.drop_first()) =~~= script_requests(script).drop_first());
        assert(script_requests(script)[0] == event_request(e));
        assert(run(sessions, m, script).1.wire_log =~~= stepped.1.wire_log + script_requests(
            script.drop_first(),
        ));
        assert(m.wire_log.push(event_request(e)) + script_requests(script).drop_first() =~~= m
            .wire_log + script_requests(script));
        assert(run(sessions, m, script).1.wire_log =~~= m.wire_log + script_requests(script));
    }
}

/// Law: an upstream connection severed between two exchanges is
/// replaced transparently — once the manager has observed the break,
/// the next exchange succeeds against a newly established connection,
/// and no session's client connection is touched by any of it.
pub proof fn lemma_reconnect_transparent(
    s: SessionModel,
    m: ManagerState,
    req: Seq<u8>,
    resp: (u16, Seq<u8>),
    severed: ManagerState,
)
    requires
        s.open_conn,
        m.connected,
        // the break was observed between exchanges
        severed == (ManagerState { connected: false, generation: m.generation, wire_log: m.wire_log }),
    ensures
        // the next exchange, with the reconnect succeeding and the new
        // wire replying, delivers the response on a fresh connection
        exchange_step(severed, req, Some(resp), true).1 == Some(resp),
        exchange_step(severed, req, Some(resp), true).0.connected,
        exchange_step(severed, req, Some(resp), true).0.generation == m.generation + 1,
        // and the session that submits it stays open and is served
        session_step(s, severed, Some(req), Some(resp), true, true).0.open_conn,
        session_step(s, severed, Some(req), Some(resp), true, true).0.served == s.served.push(
            (req, resp),
        ),
{
}

/// Law: if the upstream is unreachable for one exchange, the client
/// that submitted it receives the gateway-failure response, its
/// connection stays open, and its next exchange is attempted normally
/// (and succeeds as soon as the upstream is reachable again).
pub proof fn lemma_gateway_failure_then_next(
    s: SessionModel,
    m: ManagerState,
    req1: Seq<u8>,
    req2: Seq<u8>,
    wire1: Option<(u16, Seq<u8>)>,
    reconnect1: bool,
    resp2: (u16, Seq<u8>),
)
    requires
        s.open_conn,
        // exchange one fails: either the wire broke, or there was no
        // connection and the lazy reconnect was refused
        exchange_step(m, req1, wire1, reconnect1).1 is None,
    ensures
        ({
            let first = session_step(s, m, Some(req1), wire1, reconnect1, true);
            // the client got the synthesized gateway failure for it
            &&& first.0.open_conn
            &&& first.0.served == s.served.push((req1, (gateway_status(), Seq::<u8>::empty())))
            // and its next request is attempted normally: with the
            // upstream reachable again it is delivered
            &&& session_step(first.0, first.1, Some(req2), Some(resp2), true, true).0.served
                == first.0.served.push((req2, resp2))
            &&& session_step(first.0, first.1, Some(req2), Some(resp2), true, true).0.open_conn
            &&& session_step(first.0, first.1, Some(req2), Some(resp2), true, true).1.wire_log.last()
                == req2
        }),
{
}

/// The requests of a served log, oldest first.
pub open spec fn served_requests(s: Seq<(Seq<u8>, (u16, Seq<u8>))>) -> Seq<Seq<u8>> {
    s.map_values(|p: (Seq<u8>, (u16, Seq<u8>))| p.0)
}

/// The events of a script that the scheduler gave to one client, in
/// script order.
pub open spec fn events_for(script: Seq<RunEvent>, c: int) -> Seq<RunEvent> {
    script.filter(|e: RunEvent| e.client == c)
}

/// Peeling the first event off a script peels it off the client's own
/// events exactly when it is that client's.
proof fn lemma_events_for_unfold(script: Seq<RunEvent>, c: int)
    requires
        script.len() > 0,
    ensures
        script[0].client == c ==> events_for(script, c) == seq![script[0]] + events_for(
            script.drop_first(),
            c,
        ),
        script[0].client != c ==> events_for(script, c) == events_for(script.drop_first(), c),
{
    broadcast use vstd::seq_lib::group_filter_ensures;

    let e = script[0];
    let rest = script.drop_first();
    assert(script =~= seq![e] + rest);
    assert(events_for(seq![e] + rest, c) == events_for(seq![e], c) + events_for(rest, c));
    reveal_with_fuel(Seq::filter, 3);
    assert(seq![e].drop_last() =~= Seq::<RunEvent>::empty());
    if e.client == c {
        assert(events_for(seq![e], c) =~= seq![e]);
    } else {
        assert(events_for(seq![e], c) =~= Seq::<RunEvent>::empty());
        assert(Seq::<RunEvent>::empty() + events_for(rest, c) =~= events_for(rest, c));
    }
}

/// Law: concurrency never reorders one client's service. In any run of
/// any schedule, as long as the chosen client's own reads all yield a
/// request and its writes succeed, the requests served to it are
/// exactly the ones it submitted, in submission order — whatever the
/// other clients and the upstream did in between.
pub proof fn lemma_client_order_under_interleaving(
    sessions: Map<int, SessionModel>,
    m: ManagerState,
    script: Seq<RunEvent>,
    c: int,
)
    requires
        sessions.dom().contains(c),
        sessions[c].open_conn,
        forall|k: int|
            0 <= k < script.len() && (#[trigger] script[k]).client == c ==> script[k].read is Some
                && script[k].write_ok,
    ensures
        run(sessions, m, script).0.dom().contains(c),
        run(sessions, m, script).0[c].open_conn,
        served_requests(run(sessions, m, script).0[c].served) == served_requests(
            sessions[c].served,
        ) + script_requests(events_for(script, c)),
    decreases script.len(),
{
    if script.len() == 0 {
        assert(events_for(script, c) =~= Seq::<RunEvent>::empty());
        assert(script_requests(events_for(script, c)) =~= Seq::<Seq<u8>>::empty());
        assert(served_requests(sessions[c].served) + script_requests(events_for(script, c)) =~=
            served_requests(sessions[c].served));
    } else {
        let e = script[0];
        let rest = script.drop_first();
        lemma_events_for_unfold(script, c);
        if sessions.dom().contains(e.client) {
            let stepped = session_step(sessions[e.client], m, e.read, e.wire, e.reconnect_ok, e.write_ok);
            let sessions1 = sessions.insert(e.client, stepped.0);
            if e.client == c {
                assert(e.read is Some && e.write_ok);
                assert(stepped.0.open_conn);
                assert(stepped.0.served == sessions[c].served.push(
                    (event_request(e), stepped.0.served.last().1),
                ));
                lemma_client_order_under_interleaving(sessions1, stepped.1, rest, c);
                assert(served_requests(stepped.0.served) =~= served_requests(
                    sessions[c].served,
                ).push(event_request(e)));
                assert(script_requests(events_for(script, c)) =~= seq![event_request(e)]
                    + script_requests(events_for(rest, c)));
                assert(served_requests(run(sessions, m, script).0[c].served) =~= served_requests(
                    sessions[c].served,
                ) + script_requests(events_for(script, c)));
            } else {
                assert(sessions1.dom().contains(c) && sessions1[c] == sessions[c]);
                lemma_client_order_under_interleaving(sessions1, stepped.1, rest, c);
            }
        } else {
            assert(e.client != c);
            lemma_client_order_under_interleaving(sessions, m, rest, c);
        }
    }
}

} // verus!
