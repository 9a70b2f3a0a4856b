//! The versioned realtime protocol: envelopes, one connection's decisions, and
//! change notifications.
//!
//! Every message uses one envelope with a message id, session (connection) id,
//! type, payload, and where relevant a workspace revision. Command envelopes of
//! the client receive an `ack` or `reject` in response.

use crate::commands::{CommandOutcome, OutcomeView};
use crate::model::NodeId;
use crate::session::ClientActivity;
use crate::text::{encode_ulid, text_of, ulid_text};
use vstd::prelude::*;

verus! {

/// Protocol version understood by this server.
pub const PROTOCOL_VERSION: u32 = 1;

/// Nanoseconds between server-initiated heartbeat messages.
pub const HEARTBEAT_INTERVAL: u64 = 15_000_000_000;

/// Capacity of the local change-broadcast channel.
pub const CHANGE_CHANNEL_CAPACITY: usize = 64;

/// Nanoseconds between two looks at the workspace revision for changes made by
/// other writers.
pub const POLL_INTERVAL: u64 = 500_000_000;

/// `ulid::Ulid::generate` draws a new identifier from the time and from chance.
/// Nothing holds of every outcome but that it is one.
#[verifier::external_body]
pub(crate) fn generate_ulid() -> (value: u128) {
    ulid::Ulid::generate().0
}

/// The type of a message.
#[derive(Clone, Copy, Debug, PartialEq, Eq, Structural)]
pub enum MessageKind {
    Init,
    Heartbeat,
    Change,
    Shutdown,
    Ack,
    Reject,
}

impl MessageKind {
    /// The name of the type in an envelope.
    pub open spec fn text(self) -> Seq<char> {
        match self {
            MessageKind::Init => "init"@,
            MessageKind::Heartbeat => "heartbeat"@,
            MessageKind::Change => "change"@,
            MessageKind::Shutdown => "shutdown"@,
            MessageKind::Ack => "ack"@,
            MessageKind::Reject => "reject"@,
        }
    }

    /// Names the type.
    pub fn name(&self) -> (name: &'static str)
        ensures
            name@ == self.text(),
    {
        match *self {
            MessageKind::Init => "init",
            MessageKind::Heartbeat => "heartbeat",
            MessageKind::Change => "change",
            MessageKind::Shutdown => "shutdown",
            MessageKind::Ack => "ack",
            MessageKind::Reject => "reject",
        }
    }
}

/// What a message carries.
#[derive(Debug)]
pub enum Payload {
    Empty,
    /// The root of the subtree that is shown.
    Root(String),
    /// The answer to a command.
    Outcome { command: String, reason: Option<String>, node_id: Option<String> },
}

/// The contents of a [`Payload`].
pub enum PayloadView {
    Empty,
    Root(Seq<char>),
    Outcome { command: Seq<char>, reason: Option<Seq<char>>, node_id: Option<Seq<char>> },
}

impl View for Payload {
    type V = PayloadView;

    open spec fn view(&self) -> PayloadView {
        match *self {
            Payload::Empty => PayloadView::Empty,
            Payload::Root(root) => PayloadView::Root(root@),
            Payload::Outcome { command, reason, node_id } => PayloadView::Outcome {
                command: command@,
                reason: text_of(reason),
                node_id: text_of(node_id),
            },
        }
    }
}

/// One message to the client.
#[derive(Debug)]
pub struct Envelope {
    pub v: u32,
    pub id: String,
    pub session: String,
    pub kind: MessageKind,
    pub payload: Payload,
    pub revision: Option<u64>,
}

/// The contents of an [`Envelope`].
pub struct MessageView {
    pub v: u32,
    pub id: Seq<char>,
    pub session: Seq<char>,
    pub kind: MessageKind,
    pub payload: PayloadView,
    pub revision: Option<u64>,
}

impl View for Envelope {
    type V = MessageView;

    open spec fn view(&self) -> MessageView {
        MessageView {
            v: self.v,
            id: self.id@,
            session: self.session@,
            kind: self.kind,
            payload: self.payload@,
            revision: self.revision,
        }
    }
}

impl Envelope {
    /// Wraps a message of a connection under a fresh id.
    pub fn new(session: &String, kind: MessageKind, payload: Payload, revision: Option<u64>) -> (
        envelope: Envelope)
        ensures
            envelope@ == message(envelope.id@, session@, kind, payload@, revision),
            exists|value: u128| envelope.id@ == #[trigger] ulid_text(value),
    {
        let value: u128 = generate_ulid();
        Envelope {
            v: PROTOCOL_VERSION,
            id: encode_ulid(value),
            session: session.clone(),
            kind,
            payload,
            revision,
        }
    }
}

/// The answer to a request for a realtime connection.
#[derive(Clone, Copy, Debug, PartialEq, Eq, Structural)]
pub enum UpgradeDecision {
    /// 403: "invalid session credential".
    InvalidCredential,
    /// 404: "unknown workspace".
    UnknownWorkspace,
    Accepted,
}

/// Decides a request for a realtime connection. The channel grants authority to
/// change the tree, so it needs the session credential.
pub fn check_upgrade(
    session: &String,
    credential: &String,
    workspace: usize,
    workspaces: usize,
) -> (decision: UpgradeDecision)
    ensures
        decision == if session@ != credential@ {
            UpgradeDecision::InvalidCredential
        } else if workspace >= workspaces {
            UpgradeDecision::UnknownWorkspace
        } else {
            UpgradeDecision::Accepted
        },
{
    if *session != *credential {
        UpgradeDecision::InvalidCredential
    } else if workspace >= workspaces {
        UpgradeDecision::UnknownWorkspace
    } else {
        UpgradeDecision::Accepted
    }
}

/// What the change channel delivers.
#[derive(Clone, Copy, Debug, PartialEq, Eq, Structural)]
pub enum ChangeNotice {
    Revision(u64),
    /// Notifications were dropped because the client was too slow.
    Lagged,
    Closed,
}

/// What the client sends.
#[derive(Debug)]
pub enum Frame {
    /// A close frame, a failed read, or the end of the stream.
    Gone,
    /// A text frame that carried a command, with its outcome.
    Command(CommandOutcome),
    /// A frame that needs no answer: other text, ping, pong or binary.
    Quiet,
}

/// What can happen on an open connection.
#[derive(Debug)]
pub enum Event {
    HeartbeatDue,
    /// The shutdown signal was looked at: whether its sender is gone and whether
    /// shutdown is requested.
    ShutdownSignal { sender_gone: bool, requested: bool },
    Changed(ChangeNotice),
    Incoming(Frame),
    SendFailed,
}

/// What is to be done next.
#[derive(Debug)]
pub enum Action {
    Wait,
    Send(Envelope),
    /// Send the message, then a close frame, and end.
    CloseForShutdown(Envelope),
    End,
}

/// The meaning of an [`Action`].
pub enum ActionView {
    Wait,
    Send(MessageView),
    CloseForShutdown(MessageView),
    End,
}

impl View for Action {
    type V = ActionView;

    open spec fn view(&self) -> ActionView {
        match *self {
            Action::Wait => ActionView::Wait,
            Action::Send(envelope) => ActionView::Send(envelope@),
            Action::CloseForShutdown(envelope) => ActionView::CloseForShutdown(envelope@),
            Action::End => ActionView::End,
        }
    }
}

/// Whether a connection goes on after the action.
pub open spec fn goes_on(action: ActionView) -> bool {
    action is Wait || action is Send
}

/// The id of the message that an action sends, if it sends one.
pub open spec fn message_id(action: ActionView) -> Option<Seq<char>> {
    match action {
        ActionView::Send(m) => Some(m.id),
        ActionView::CloseForShutdown(m) => Some(m.id),
        _ => None,
    }
}

/// Whether a message that the action sends has an identifier as its id.
pub open spec fn is_identified(action: ActionView) -> bool {
    message_id(action) matches Some(id) ==> exists|value: u128| id == #[trigger] ulid_text(value)
}

/// A message of a connection with this content.
pub open spec fn message(
    id: Seq<char>,
    session: Seq<char>,
    kind: MessageKind,
    payload: PayloadView,
    revision: Option<u64>,
) -> MessageView {
    MessageView { v: PROTOCOL_VERSION, id, session, kind, payload, revision }
}

/// The answer to a command.
pub open spec fn answer(id: Seq<char>, session: Seq<char>, outcome: OutcomeView) -> MessageView {
    message(
        id,
        session,
        if outcome.ok {
            MessageKind::Ack
        } else {
            MessageKind::Reject
        },
        PayloadView::Outcome {
            command: outcome.command,
            reason: outcome.reason,
            node_id: outcome.node_id,
        },
        outcome.version,
    )
}

/// How an open connection reacts; a message that it sends has the id.
pub open spec fn reaction(id: Seq<char>, session: Seq<char>, event: Event) -> ActionView {
    match event {
        Event::HeartbeatDue => ActionView::Send(
            message(id, session, MessageKind::Heartbeat, PayloadView::Empty, None),
        ),
        Event::ShutdownSignal { sender_gone, requested } => if sender_gone || requested {
            ActionView::CloseForShutdown(
                message(id, session, MessageKind::Shutdown, PayloadView::Empty, None),
            )
        } else {
            ActionView::Wait
        },
        Event::Changed(ChangeNotice::Revision(revision)) => ActionView::Send(
            message(id, session, MessageKind::Change, PayloadView::Empty, Some(revision)),
        ),
        Event::Changed(ChangeNotice::Lagged) => ActionView::Send(
            message(id, session, MessageKind::Change, PayloadView::Empty, None),
        ),
        Event::Changed(ChangeNotice::Closed) => ActionView::End,
        Event::Incoming(Frame::Gone) => ActionView::End,
        Event::Incoming(Frame::Command(outcome)) => ActionView::Send(answer(id, session, outcome@)),
        Event::Incoming(Frame::Quiet) => ActionView::Wait,
        Event::SendFailed => ActionView::End,
    }
}

/// What a new connection is told first, in a message with the id.
pub open spec fn greeting(
    id: Seq<char>,
    session: Seq<char>,
    shutdown_requested: bool,
    root: NodeId,
    revision: u64,
) -> ActionView {
    if shutdown_requested {
        ActionView::CloseForShutdown(
            message(id, session, MessageKind::Shutdown, PayloadView::Empty, None),
        )
    } else {
        ActionView::Send(
            message(
                id,
                session,
                MessageKind::Init,
                PayloadView::Root(root.text()),
                Some(revision),
            ),
        )
    }
}

/// One realtime connection.
#[derive(Debug)]
pub struct Connection {
    pub id: String,
    /// Whether the connection goes on and its client is counted in.
    pub open: bool,
}

impl Connection {
    /// Opens a connection: the client is counted in and told the root and the
    /// revision, unless shutdown was already requested.
    pub fn start(
        activity: &mut ClientActivity,
        shutdown_requested: bool,
        root: NodeId,
        revision: u64,
    ) -> (started: (Connection, Action))
        ensures
            exists|value: u128| started.0.id@ == #[trigger] ulid_text(value),
            started.0.open == !shutdown_requested,
            *final(activity) == if shutdown_requested {
                *old(activity)
            } else {
                old(activity).joined()
            },
            is_identified(started.1@),
            exists|id: Seq<char>|
                started.1@ == #[trigger] greeting(
                    id,
                    started.0.id@,
                    shutdown_requested,
                    root,
                    revision,
                ),
    {
        let value: u128 = generate_ulid();
        let id = encode_ulid(value);
        if shutdown_requested {
            let envelope = Envelope::new(&id, MessageKind::Shutdown, Payload::Empty, None);
            assert(ActionView::CloseForShutdown(envelope@) == greeting(
                envelope.id@,
                id@,
                shutdown_requested,
                root,
                revision,
            ));
            return (Connection { id, open: false }, Action::CloseForShutdown(envelope));
        }
        activity.client_connected();
        let payload = Payload::Root(root.to_text());
        let envelope = Envelope::new(&id, MessageKind::Init, payload, Some(revision));
        assert(ActionView::Send(envelope@) == greeting(
            envelope.id@,
            id@,
            shutdown_requested,
            root,
            revision,
        ));
        (Connection { id, open: true }, Action::Send(envelope))
    }

    /// Reacts to an event. When the connection ends, its client is counted out.
    pub fn step(&mut self, activity: &mut ClientActivity, event: Event, now: u64) -> (action: Action)
        requires
            old(self).open,
        ensures
            is_identified(action@),
            exists|id: Seq<char>| action@ == #[trigger] reaction(id, old(self).id@, event),
            final(self).id@ == old(self).id@,
            final(self).open == goes_on(action@),
            *final(activity) == if goes_on(action@) {
                *old(activity)
            } else {
                old(activity).left(now)
            },
    {
        let ghost happened = event;
        let action: Action = match event {
            Event::HeartbeatDue => Action::Send(
                Envelope::new(&self.id, MessageKind::Heartbeat, Payload::Empty, None),
            ),
            Event::ShutdownSignal { sender_gone, requested } => {
                if sender_gone || requested {
                    Action::CloseForShutdown(
                        Envelope::new(&self.id, MessageKind::Shutdown, Payload::Empty, None),
                    )
                } else {
                    Action::Wait
                }
            },
            Event::Changed(ChangeNotice::Revision(revision)) => Action::Send(
                Envelope::new(&self.id, MessageKind::Change, Payload::Empty, Some(revision)),
            ),
            Event::Changed(ChangeNotice::Lagged) => Action::Send(
                Envelope::new(&self.id, MessageKind::Change, Payload::Empty, None),
            ),
            Event::Changed(ChangeNotice::Closed) => Action::End,
            Event::Incoming(Frame::Gone) => Action::End,
            Event::Incoming(Frame::Command(outcome)) => {
                let kind: MessageKind = if outcome.ok {
                    MessageKind::Ack
                } else {
                    MessageKind::Reject
                };
                let version: Option<u64> = outcome.version;
                let payload = Payload::Outcome {
                    command: outcome.command,
                    reason: outcome.reason,
                    node_id: outcome.node_id,
                };
                Action::Send(Envelope::new(&self.id, kind, payload, version))
            },
            Event::Incoming(Frame::Quiet) => Action::Wait,
            Event::SendFailed => Action::End,
        };
        assert(action@ == reaction(
            match message_id(action@) {
                Some(id) => id,
                None => Seq::empty(),
            },
            self.id@,
            happened,
        ));
        match &action {
            Action::Wait => {},
            Action::Send(_) => {},
            _ => {
                activity.client_disconnected(now);
                self.open = false;
            },
        }
        action
    }
}

/// A connection that opened and ended has left the number of clients as it was.
pub proof fn law_connection_is_counted_once(activity: ClientActivity, now: u64)
    ensures
        activity.joined().left(now).connected == activity.connected,
{
}

/// One change of the workspace revision.
#[derive(Clone, Copy, Debug, PartialEq, Eq, Structural)]
pub struct ChangeEvent {
    pub revision: u64,
}

/// The workspace revision that was seen last.
#[derive(Clone, Copy, Debug, PartialEq, Eq, Structural)]
pub struct RevisionWatch {
    pub last_seen: u64,
}

/// A revision that could not be read counts as zero.
pub open spec fn seen_revision(current: Option<u64>) -> u64 {
    match current {
        Some(revision) => revision,
        None => 0,
    }
}

impl RevisionWatch {
    /// Looks at the current revision: clients are notified exactly when it is not
    /// the one seen last.
    pub fn observe(&mut self, current: Option<u64>) -> (change: Option<ChangeEvent>)
        ensures
            final(self).last_seen == seen_revision(current),
            change == if seen_revision(current) != old(self).last_seen {
                Some(ChangeEvent { revision: seen_revision(current) })
            } else {
                None
            },
    {
        let revision: u64 = match current {
            Some(r) => r,
            None => 0,
        };
        let previous: u64 = self.last_seen;
        self.last_seen = revision;
        if revision != previous {
            Some(ChangeEvent { revision })
        } else {
            None
        }
    }
}

} // verus!
