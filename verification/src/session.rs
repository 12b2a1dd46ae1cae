//! The per-connection peer session state machine: connecting, awaiting the
//! handshake, established, closed.  The machine is a pure step function from
//! a session and one event to the next session and the actions to perform;
//! the task that owns the socket runs the loop, performing each action and
//! feeding back what the stream produced.
use crate::text::{hex_of_bytes, hex_string};
use crate::wire::{bits_of, bitvec_clone, Handshake, Message, MessageView};
use vstd::prelude::*;

verus! {

/// A peer's 20-byte identifier.
pub type PeerId = [u8; 20];

/// The peer id as lowercase hex, for reading.
pub fn pretty(peer_id: &PeerId) -> (r: String)
    ensures
        r@ == hex_of_bytes(peer_id@),
{
    hex_string(peer_id.as_slice())
}

/// Where a session stands in its life: `Closed` is terminal and reachable
/// from every state.
#[derive(Debug, Clone, Copy, PartialEq, Eq, Structural)]
pub enum SessionState {
    Connecting,
    AwaitingHandshake,
    Established,
    Closed,
}

/// What the session's driving task reports to the machine.
pub enum SessionEvent {
    /// The outbound socket finished connecting.
    Connected,
    /// One whole frame arrived and was decoded.
    Frame(Message),
    /// The coordinator asks that a message be sent to the peer.
    Command(Message),
    /// The stream ended.
    StreamClosed,
    /// Reading, writing or decoding failed.
    Failed,
    /// The connection or handshake wait ran out of time.
    TimedOut,
    /// The coordinator asks that the session be closed.
    CloseRequested,
}

/// What the driving task must do after a step.
pub enum SessionAction {
    /// Send our own handshake frame.
    SendHandshake,
    /// Send this message to the peer.
    Send(Message),
    /// Forward this inbound message to the coordinator.
    Deliver(PeerId, Message),
    /// Announce the session as established, exactly once.
    EmitStarted(PeerId),
    /// Announce the session as gone, exactly once, after `EmitStarted`.
    EmitStopped(PeerId),
    /// Close the socket.
    CloseConnection,
}

/// One peer connection's state, owned exclusively by its driving task.
pub struct PeerSession {
    pub state: SessionState,
    /// Whether this side dialed the connection (and so handshakes first).
    pub initiated: bool,
    /// The info-hash an arriving handshake must carry.
    pub info_hash: [u8; 20],
    pub our_peer_id: [u8; 20],
    /// The peer's id, learned from its handshake.
    pub remote_peer_id: Option<[u8; 20]>,
    /// The peer's piece bitfield, tracked from its `Bitfield` message.
    pub remote_bitfield: Option<bit_vec::BitVec>,
    pub started_emitted: bool,
    pub stopped_emitted: bool,
}

pub struct SessionView {
    pub state: SessionState,
    pub initiated: bool,
    pub info_hash: Seq<u8>,
    pub our_peer_id: Seq<u8>,
    pub remote_peer_id: Option<Seq<u8>>,
    pub remote_bitfield: Option<Seq<bool>>,
    pub started_emitted: bool,
    pub stopped_emitted: bool,
}

pub enum EventView {
    Connected,
    Frame(MessageView),
    Command(MessageView),
    StreamClosed,
    Failed,
    TimedOut,
    CloseRequested,
}

pub enum ActionView {
    SendHandshake,
    Send(MessageView),
    Deliver(Seq<u8>, MessageView),
    EmitStarted(Seq<u8>),
    EmitStopped(Seq<u8>),
    CloseConnection,
}

impl View for PeerSession {
    type V = SessionView;

    open spec fn view(&self) -> SessionView {
        SessionView {
            state: self.state,
            initiated: self.initiated,
            info_hash: self.info_hash@,
            our_peer_id: self.our_peer_id@,
            remote_peer_id: match self.remote_peer_id {
                Option::Some(p) => Option::Some(p@),
                Option::None => Option::None,
            },
            remote_bitfield: match self.remote_bitfield {
                Option::Some(ref b) => Option::Some(bits_of(*b)),
                Option::None => Option::None,
            },
            started_emitted: self.started_emitted,
            stopped_emitted: self.stopped_emitted,
        }
    }
}

impl View for SessionEvent {
    type V = EventView;

    open spec fn view(&self) -> EventView {
        match self {
            SessionEvent::Connected => EventView::Connected,
            SessionEvent::Frame(m) => EventView::Frame(m@),
            SessionEvent::Command(m) => EventView::Command(m@),
            SessionEvent::StreamClosed => EventView::StreamClosed,
            SessionEvent::Failed => EventView::Failed,
            SessionEvent::TimedOut => EventView::TimedOut,
            SessionEvent::CloseRequested => EventView::CloseRequested,
        }
    }
}

impl View for SessionAction {
    type V = ActionView;

    open spec fn view(&self) -> ActionView {
        match self {
            SessionAction::SendHandshake => ActionView::SendHandshake,
            SessionAction::Send(m) => ActionView::Send(m@),
            SessionAction::Deliver(p, m) => ActionView::Deliver(p@, m@),
            SessionAction::EmitStarted(p) => ActionView::EmitStarted(p@),
            SessionAction::EmitStopped(p) => ActionView::EmitStopped(p@),
            SessionAction::CloseConnection => ActionView::CloseConnection,
        }
    }
}

pub open spec fn view_of_actions(s: Seq<SessionAction>) -> Seq<ActionView>
    decreases s,
{
    if s.len() == 0 {
        Seq::empty()
    } else {
        view_of_actions(s.drop_last()).push(s.last()@)
    }
}

pub proof fn lemma_view_of_actions_push(s: Seq<SessionAction>, a: SessionAction)
    ensures
        view_of_actions(s.push(a)) == view_of_actions(s).push(a@),
{
    assert(s.push(a).drop_last() =~= s);
    assert(s.push(a).last() == a);
}

/// A session's well-formedness: an established session knows the peer's id
/// and has announced itself; lifecycle announcements happen in order.
pub open spec fn wf(s: SessionView) -> bool {
    &&& (s.state == SessionState::Established ==> s.remote_peer_id is Some)
    &&& (s.state == SessionState::Established ==> s.started_emitted)
    &&& (s.started_emitted ==> s.state == SessionState::Established || s.state
        == SessionState::Closed)
    &&& (s.stopped_emitted ==> s.state == SessionState::Closed && s.started_emitted)
}

/// Close a session: an established one announces `Stopped` exactly once.
pub open spec fn spec_close(s: SessionView) -> (SessionView, Seq<ActionView>) {
    if s.state == SessionState::Established && !s.stopped_emitted {
        (
            SessionView { state: SessionState::Closed, stopped_emitted: true, ..s },
            seq![
                ActionView::EmitStopped(s.remote_peer_id.unwrap()),
                ActionView::CloseConnection,
            ],
        )
    } else {
        (SessionView { state: SessionState::Closed, ..s }, seq![ActionView::CloseConnection])
    }
}

/// One step of the session state machine: the next session and the actions
/// the driving task must perform, in order.
pub open spec fn spec_step(s: SessionView, ev: EventView) -> (SessionView, Seq<ActionView>) {
    if s.state == SessionState::Closed {
        (s, Seq::empty())
    } else {
        match ev {
            EventView::Connected => if s.state == SessionState::Connecting {
                (
                    SessionView { state: SessionState::AwaitingHandshake, ..s },
                    seq![ActionView::SendHandshake],
                )
            } else {
                (s, Seq::empty())
            },
            EventView::Frame(m) => match s.state {
                SessionState::AwaitingHandshake => match m {
                    MessageView::Handshake { info_hash, peer_id } => if info_hash == s.info_hash {
                        (
                            SessionView {
                                state: SessionState::Established,
                                remote_peer_id: Option::Some(peer_id),
                                started_emitted: true,
                                ..s
                            },
                            if s.initiated {
                                seq![ActionView::EmitStarted(peer_id)]
                            } else {
                                seq![ActionView::SendHandshake, ActionView::EmitStarted(peer_id)]
                            },
                        )
                    } else {
                        (
                            SessionView { state: SessionState::Closed, ..s },
                            seq![ActionView::CloseConnection],
                        )
                    },
                    _ => (
                        SessionView { state: SessionState::Closed, ..s },
                        seq![ActionView::CloseConnection],
                    ),
                },
                SessionState::Established => match m {
                    MessageView::Handshake { info_hash, peer_id } => spec_close(s),
                    MessageView::Bitfield(bits) => (
                        SessionView { remote_bitfield: Option::Some(bits), ..s },
                        seq![ActionView::Deliver(s.remote_peer_id.unwrap(), m)],
                    ),
                    _ => (s, seq![ActionView::Deliver(s.remote_peer_id.unwrap(), m)]),
                },
                _ => (
                    SessionView { state: SessionState::Closed, ..s },
                    seq![ActionView::CloseConnection],
                ),
            },
            EventView::Command(m) => if s.state == SessionState::Established {
                (s, seq![ActionView::Send(m)])
            } else {
                (s, Seq::empty())
            },
            EventView::StreamClosed => spec_close(s),
            EventView::Failed => spec_close(s),
            EventView::CloseRequested => spec_close(s),
            EventView::TimedOut => if s.state == SessionState::Established {
                (s, Seq::empty())
            } else {
                spec_close(s)
            },
        }
    }
}

impl PeerSession {
    /// A fresh session for this torrent.  A dialed-out session starts
    /// connecting; an accepted one is already awaiting the peer's handshake.
    pub fn new(info_hash: [u8; 20], our_peer_id: [u8; 20], initiated: bool) -> (r: PeerSession)
        ensures
            r@ == (SessionView {
                state: if initiated {
                    SessionState::Connecting
                } else {
                    SessionState::AwaitingHandshake
                },
                initiated: initiated,
                info_hash: info_hash@,
                our_peer_id: our_peer_id@,
                remote_peer_id: Option::None,
                remote_bitfield: Option::None,
                started_emitted: false,
                stopped_emitted: false,
            }),
            wf(r@),
    {
        PeerSession {
            state: if initiated {
                SessionState::Connecting
            } else {
                SessionState::AwaitingHandshake
            },
            initiated,
            info_hash,
            our_peer_id,
            remote_peer_id: None,
            remote_bitfield: None,
            started_emitted: false,
            stopped_emitted: false,
        }
    }

    /// How many pieces the peer's tracked bitfield covers, once one arrived.
    pub fn remote_bitfield_len(&self) -> (r: Option<usize>)
        ensures
            (match self.remote_bitfield {
                Option::Some(ref b) => r matches Some(n) && n == bits_of(*b).len(),
                Option::None => r is None,
            }),
    {
        match &self.remote_bitfield {
            Some(b) => Some(crate::wire::bitvec_len(b)),
            None => None,
        }
    }

    /// Feed one event to the machine; perform the returned actions in order.
    pub fn handle_event(&mut self, ev: SessionEvent) -> (acts: Vec<SessionAction>)
        requires
            wf(old(self)@),
        ensures
            wf(final(self)@),
            final(self)@ == spec_step(old(self)@, ev@).0,
            view_of_actions(acts@) == spec_step(old(self)@, ev@).1,
    {
        let mut acts: Vec<SessionAction> = Vec::new();
        if matches!(self.state, SessionState::Closed) {
            return acts;
        }
        match ev {
            SessionEvent::Connected => {
                if matches!(self.state, SessionState::Connecting) {
                    self.state = SessionState::AwaitingHandshake;
                    push_action(&mut acts, SessionAction::SendHandshake);
                }
                acts
            },
            SessionEvent::Frame(m) => {
                match self.state {
                    SessionState::AwaitingHandshake => {
                        match m {
                            Message::Handshake(h) => {
                                if arr20_eq(&h.info_hash, &self.info_hash) {
                                    self.state = SessionState::Established;
                                    self.remote_peer_id = Some(h.peer_id);
                                    self.started_emitted = true;
                                    if !self.initiated {
                                        push_action(&mut acts, SessionAction::SendHandshake);
                                    }
                                    push_action(&mut acts, SessionAction::EmitStarted(h.peer_id));
                                } else {
                                    self.state = SessionState::Closed;
                                    push_action(&mut acts, SessionAction::CloseConnection);
                                }
                            },
                            _ => {
                                self.state = SessionState::Closed;
                                push_action(&mut acts, SessionAction::CloseConnection);
                            },
                        }
                        acts
                    },
                    SessionState::Established => {
                        match m {
                            Message::Handshake(_) => self.close(),
                            Message::Bitfield(bv) => {
                                let rid = match self.remote_peer_id {
                                    Some(p) => p,
                                    None => {
                                        proof {
                                            assert(false);
                                        }
                                        [0u8; 20]
                                    },
                                };
                                self.remote_bitfield = Some(bitvec_clone(&bv));
                                push_action(
                                    &mut acts,
                                    SessionAction::Deliver(rid, Message::Bitfield(bv)),
                                );
                                acts
                            },
                            _ => {
                                let rid = match self.remote_peer_id {
                                    Some(p) => p,
                                    None => {
                                        proof {
                                            assert(false);
                                        }
                                        [0u8; 20]
                                    },
                                };
                                push_action(&mut acts, SessionAction::Deliver(rid, m));
                                acts
                            },
                        }
                    },
                    _ => {
                        self.state = SessionState::Closed;
                        push_action(&mut acts, SessionAction::CloseConnection);
                        acts
                    },
                }
            },
            SessionEvent::Command(m) => {
                if matches!(self.state, SessionState::Established) {
                    push_action(&mut acts, SessionAction::Send(m));
                }
                acts
            },
            SessionEvent::StreamClosed => self.close(),
            SessionEvent::Failed => self.close(),
            SessionEvent::CloseRequested => self.close(),
            SessionEvent::TimedOut => {
                if matches!(self.state, SessionState::Established) {
                    acts
                } else {
                    self.close()
                }
            },
        }
    }

    /// Close the session, announcing `Stopped` exactly once if it had been
    /// announced as started.
    fn close(&mut self) -> (acts: Vec<SessionAction>)
        requires
            wf(old(self)@),
        ensures
            final(self)@ == spec_close(old(self)@).0,
            view_of_actions(acts@) == spec_close(old(self)@).1,
    {
        let mut acts: Vec<SessionAction> = Vec::new();
        if matches!(self.state, SessionState::Established) && !self.stopped_emitted {
            let rid = match self.remote_peer_id {
                Some(p) => p,
                None => {
                    proof {
                        assert(false);
                    }
                    [0u8; 20]
                },
            };
            self.state = SessionState::Closed;
            self.stopped_emitted = true;
            push_action(&mut acts, SessionAction::EmitStopped(rid));
            push_action(&mut acts, SessionAction::CloseConnection);
        } else {
            self.state = SessionState::Closed;
            push_action(&mut acts, SessionAction::CloseConnection);
        }
        acts
    }
}

/// Append one action, keeping the ghost view in step.
fn push_action(acts: &mut Vec<SessionAction>, a: SessionAction)
    ensures
        final(acts)@ == old(acts)@.push(a),
        view_of_actions(final(acts)@) == view_of_actions(old(acts)@).push(a@),
{
    proof {
        lemma_view_of_actions_push(acts@, a);
    }
    acts.push(a);
}

/// Whether two 20-byte ids are equal.
fn arr20_eq(a: &[u8; 20], b: &[u8; 20]) -> (r: bool)
    ensures
        r == (a@ == b@),
{
    let mut i: usize = 0;
    while i < 20
        invariant
            0 <= i <= 20,
            forall|k: int| 0 <= k < i ==> a@[k] == b@[k],
        decreases 20 - i,
    {
        if a[i] != b[i] {
            proof {
                assert(a@[i as int] != b@[i as int]);
            }
            return false;
        }
        i = i + 1;
    }
    proof {
        assert(a@ =~= b@);
    }
    true
}


pub open spec fn b2i(b: bool) -> int {
    if b {
        1
    } else {
        0
    }
}

/// How many `EmitStarted` announcements a run of actions holds.
pub open spec fn count_started(avs: Seq<ActionView>) -> int
    decreases avs.len(),
{
    if avs.len() == 0 {
        0
    } else {
        count_started(avs.drop_last()) + (if avs.last() matches ActionView::EmitStarted(_) {
            1int
        } else {
            0int
        })
    }
}

/// How many `EmitStopped` announcements a run of actions holds.
pub open spec fn count_stopped(avs: Seq<ActionView>) -> int
    decreases avs.len(),
{
    if avs.len() == 0 {
        0
    } else {
        count_stopped(avs.drop_last()) + (if avs.last() matches ActionView::EmitStopped(_) {
            1int
        } else {
            0int
        })
    }
}

/// The session after a whole run of events.
pub open spec fn run_state(s: SessionView, evs: Seq<EventView>) -> SessionView
    decreases evs.len(),
{
    if evs.len() == 0 {
        s
    } else {
        run_state(spec_step(s, evs[0]).0, evs.skip(1))
    }
}

/// The `EmitStarted` announcements over a whole run of events.
pub open spec fn run_count_started(s: SessionView, evs: Seq<EventView>) -> int
    decreases evs.len(),
{
    if evs.len() == 0 {
        0
    } else {
        count_started(spec_step(s, evs[0]).1) + run_count_started(spec_step(s, evs[0]).0, evs.skip(1))
    }
}

/// The `EmitStopped` announcements over a whole run of events.
pub open spec fn run_count_stopped(s: SessionView, evs: Seq<EventView>) -> int
    decreases evs.len(),
{
    if evs.len() == 0 {
        0
    } else {
        count_stopped(spec_step(s, evs[0]).1) + run_count_stopped(spec_step(s, evs[0]).0, evs.skip(1))
    }
}

/// One step announces `Started` exactly when its flag turns on, `Stopped`
/// exactly when its flag turns on, and `Stopped` only after `Started`.
proof fn lemma_step_flags(s: SessionView, ev: EventView)
    requires
        wf(s),
    ensures
        wf(spec_step(s, ev).0),
        count_started(spec_step(s, ev).1) == b2i(spec_step(s, ev).0.started_emitted) - b2i(
            s.started_emitted,
        ),
        count_stopped(spec_step(s, ev).1) == b2i(spec_step(s, ev).0.stopped_emitted) - b2i(
            s.stopped_emitted,
        ),
        count_stopped(spec_step(s, ev).1) > 0 ==> s.started_emitted,
{
    assert forall|a: ActionView| count_started(seq![a]) == (if a matches ActionView::EmitStarted(
        _,
    ) {
        1int
    } else {
        0int
    }) by {
        assert(count_started(Seq::<ActionView>::empty()) == 0);
        assert(count_stopped(Seq::<ActionView>::empty()) == 0);
        assert(seq![a].drop_last() =~= Seq::<ActionView>::empty());
        assert(seq![a].last() == a);
    }
    assert forall|a: ActionView, b: ActionView|
        count_started(seq![a, b]) == (if a matches ActionView::EmitStarted(_) {
            1int
        } else {
            0int
        }) + (if b matches ActionView::EmitStarted(_) {
            1int
        } else {
            0int
        }) by {
        assert(count_started(Seq::<ActionView>::empty()) == 0);
        assert(count_stopped(Seq::<ActionView>::empty()) == 0);
        assert(seq![a, b].drop_last() =~= seq![a]);
        assert(seq![a, b].last() == b);
        assert(seq![a].drop_last() =~= Seq::<ActionView>::empty());
        assert(seq![a].last() == a);
    }
    assert forall|a: ActionView| count_stopped(seq![a]) == (if a matches ActionView::EmitStopped(
        _,
    ) {
        1int
    } else {
        0int
    }) by {
        assert(count_started(Seq::<ActionView>::empty()) == 0);
        assert(count_stopped(Seq::<ActionView>::empty()) == 0);
        assert(seq![a].drop_last() =~= Seq::<ActionView>::empty());
        assert(seq![a].last() == a);
    }
    assert forall|a: ActionView, b: ActionView|
        count_stopped(seq![a, b]) == (if a matches ActionView::EmitStopped(_) {
            1int
        } else {
            0int
        }) + (if b matches ActionView::EmitStopped(_) {
            1int
        } else {
            0int
        }) by {
        assert(count_started(Seq::<ActionView>::empty()) == 0);
        assert(count_stopped(Seq::<ActionView>::empty()) == 0);
        assert(seq![a, b].drop_last() =~= seq![a]);
        assert(seq![a, b].last() == b);
        assert(seq![a].drop_last() =~= Seq::<ActionView>::empty());
        assert(seq![a].last() == a);
    }
}

/// Law: session lifecycle accounting.  Over any run of events from a
/// well-formed session, the `Started` announcements made are exactly the
/// turning-on of the session's started flag, and likewise for `Stopped`: so
/// each is made at most once in a session's whole life.
pub proof fn lemma_lifecycle_counts(s: SessionView, evs: Seq<EventView>)
    requires
        wf(s),
    ensures
        wf(run_state(s, evs)),
        run_count_started(s, evs) == b2i(run_state(s, evs).started_emitted) - b2i(
            s.started_emitted,
        ),
        run_count_stopped(s, evs) == b2i(run_state(s, evs).stopped_emitted) - b2i(
            s.stopped_emitted,
        ),
    decreases evs.len(),
{
    if evs.len() > 0 {
        lemma_step_flags(s, evs[0]);
        lemma_lifecycle_counts(spec_step(s, evs[0]).0, evs.skip(1));
    }
}

/// Law: a session announces `Started` at most once and `Stopped` at most
/// once, whatever events its connection produces.
pub proof fn lemma_lifecycle_at_most_once(s: SessionView, evs: Seq<EventView>)
    requires
        wf(s),
        !s.started_emitted,
        !s.stopped_emitted,
    ensures
        0 <= run_count_started(s, evs) <= 1,
        0 <= run_count_stopped(s, evs) <= 1,
{
    lemma_lifecycle_counts(s, evs);
}

/// A closed session never changes again.
proof fn lemma_closed_stays(s: SessionView, evs: Seq<EventView>)
    requires
        s.state == SessionState::Closed,
    ensures
        run_state(s, evs) == s,
    decreases evs.len(),
{
    if evs.len() > 0 {
        lemma_closed_stays(s, evs.skip(1));
    }
}

/// Law: a handshake whose info-hash does not match closes the session at
/// once, and no `Started` (nor `Stopped`) announcement is ever made, then or
/// later.
pub proof fn lemma_mismatched_handshake_never_starts(
    s: SessionView,
    ih: Seq<u8>,
    pid: Seq<u8>,
    evs: Seq<EventView>,
)
    requires
        wf(s),
        s.state == SessionState::AwaitingHandshake,
        ih != s.info_hash,
    ensures
        spec_step(s, EventView::Frame(MessageView::Handshake { info_hash: ih, peer_id: pid })).0.state
            == SessionState::Closed,
        count_started(
            spec_step(s, EventView::Frame(MessageView::Handshake { info_hash: ih, peer_id: pid })).1,
        ) == 0,
        run_count_started(
            spec_step(s, EventView::Frame(MessageView::Handshake { info_hash: ih, peer_id: pid })).0,
            evs,
        ) == 0,
        run_count_stopped(
            spec_step(s, EventView::Frame(MessageView::Handshake { info_hash: ih, peer_id: pid })).0,
            evs,
        ) == 0,
{
    let ev = EventView::Frame(MessageView::Handshake { info_hash: ih, peer_id: pid });
    lemma_step_flags(s, ev);
    let s2 = spec_step(s, ev).0;
    lemma_lifecycle_counts(s2, evs);
    lemma_closed_stays(s2, evs);
}

/// Law: a handshake that carries the expected info-hash establishes the
/// session and announces `Started` exactly once, and closing the stream of
/// an established session announces `Stopped` exactly once.
pub proof fn lemma_handshake_then_close(s: SessionView, pid: Seq<u8>)
    requires
        wf(s),
        s.state == SessionState::AwaitingHandshake,
    ensures
        ({
            let ev = EventView::Frame(
                MessageView::Handshake { info_hash: s.info_hash, peer_id: pid },
            );
            let (s2, avs) = spec_step(s, ev);
            let (s3, avs2) = spec_step(s2, EventView::StreamClosed);
            s2.state == SessionState::Established && count_started(avs) == 1 && count_stopped(avs)
                == 0 && s3.state == SessionState::Closed && count_started(avs2) == 0
                && count_stopped(avs2) == 1
        }),
{
    let ev = EventView::Frame(MessageView::Handshake { info_hash: s.info_hash, peer_id: pid });
    lemma_step_flags(s, ev);
    let s2 = spec_step(s, ev).0;
    lemma_step_flags(s2, EventView::StreamClosed);
}

} // verus!
