//! The command protocol client: one remote-method invocation against one
//! device over one dedicated connection.
//!
//! The request is a single line, `{"id":0,"method":"<method>","params":[<params>]}`
//! terminated by CRLF; the parameter list is embedded as the literal text the
//! caller supplies. The request identifier is always the literal `0`: a fresh
//! connection is opened per call, so only one request is ever outstanding.
//!
//! The surrounding application owns the stream: it drives a `CommandCall`
//! machine by performing the action the machine asks for (connect, write the
//! encoded message, read once into a bounded buffer) and feeding the result
//! back as an event. Connection failure closes the invocation before any
//! write; write failure closes it before any read; read failure is recorded
//! as a diagnostic while the invocation still counts as sent.

use vstd::prelude::*;
use vstd::string::StringExecFns;

verus! {

/// The number of response bytes a single read may return: the response is
/// read once into a buffer of this size, with no loop to assemble more.
pub const RESPONSE_BUFFER_LEN: usize = 2000;

/// The request line for a method and its already-encoded parameter list.
pub open spec fn request_line(method: Seq<char>, params: Seq<char>) -> Seq<char> {
    "{\"id\":0,\"method\":\""@ + method + "\",\"params\":["@ + params + "]}\r\n"@
}

/// Encode one request: the fixed frame around the method name and the
/// parameter text, ending in CRLF.
pub fn encode_command(method: &str, params: &str) -> (r: String)
    ensures
        r@ == request_line(method@, params@),
{
    let mut r = String::from_str("{\"id\":0,\"method\":\"");
    r.append(method);
    r.append("\",\"params\":[");
    r.append(params);
    r.append("]}\r\n");
    proof {
        assert(r@ =~= request_line(method@, params@));
    }
    r
}

/// How one invocation ended.
#[derive(Debug, PartialEq, Eq, Clone)]
pub enum CommandOutcome {
    /// No connection could be established; nothing was written.
    ConnectFailed,
    /// The write to the established connection failed; no read was attempted.
    SendFailed,
    /// The request was sent and a read returned these raw bytes. They are
    /// surfaced for display only, never parsed or acted on.
    Success { response: Vec<u8> },
    /// The request was sent but the read failed: reported as a diagnostic,
    /// the invocation still counts as sent.
    ReadFailed,
}

/// Where one invocation stands.
#[derive(Debug, PartialEq, Eq, Clone)]
pub enum CommandPhase {
    /// A connection to the target address must be attempted.
    Connecting,
    /// The connection stands; the encoded request must be written in full.
    Connected,
    /// The request went out; one bounded read must be attempted.
    Sent,
    /// The invocation is over, with its recorded outcome.
    Closed(CommandOutcome),
}

/// What the application reports back after performing an action.
#[derive(Debug, PartialEq, Eq, Clone)]
pub enum CommandEvent {
    /// The connection was established.
    Connected,
    /// The connection could not be established.
    ConnectRefused,
    /// The whole message was written.
    WriteOk,
    /// The write failed.
    WriteFailed,
    /// A read returned these bytes.
    Response { bytes: Vec<u8> },
    /// The read failed.
    ReadFailed,
}

/// What the machine asks the application to do next.
#[derive(Debug, PartialEq, Eq, Structural, Clone, Copy)]
pub enum CommandAction {
    /// Open a fresh stream connection to the target address.
    Connect,
    /// Write the encoded message to the connection.
    Write,
    /// Read once, up to `RESPONSE_BUFFER_LEN` bytes.
    Read,
    /// Nothing: the invocation is closed.
    Done,
}

/// The transition relation of one invocation. An event out of season leaves
/// the phase unchanged; a closed invocation absorbs everything.
pub open spec fn step_spec(phase: CommandPhase, event: CommandEvent) -> CommandPhase {
    match (phase, event) {
        (CommandPhase::Connecting, CommandEvent::Connected) => CommandPhase::Connected,
        (CommandPhase::Connecting, CommandEvent::ConnectRefused) => CommandPhase::Closed(
            CommandOutcome::ConnectFailed,
        ),
        (CommandPhase::Connected, CommandEvent::WriteOk) => CommandPhase::Sent,
        (CommandPhase::Connected, CommandEvent::WriteFailed) => CommandPhase::Closed(
            CommandOutcome::SendFailed,
        ),
        (CommandPhase::Sent, CommandEvent::Response { bytes }) => CommandPhase::Closed(
            CommandOutcome::Success { response: bytes },
        ),
        (CommandPhase::Sent, CommandEvent::ReadFailed) => CommandPhase::Closed(
            CommandOutcome::ReadFailed,
        ),
        (_, _) => phase,
    }
}

/// The action each phase demands.
pub open spec fn action_spec(phase: CommandPhase) -> CommandAction {
    match phase {
        CommandPhase::Connecting => CommandAction::Connect,
        CommandPhase::Connected => CommandAction::Write,
        CommandPhase::Sent => CommandAction::Read,
        CommandPhase::Closed(_) => CommandAction::Done,
    }
}

/// The phase a run of events drives an invocation to.
pub open spec fn run_spec(phase: CommandPhase, events: Seq<CommandEvent>) -> CommandPhase
    decreases events.len(),
{
    if events.len() == 0 {
        phase
    } else {
        run_spec(step_spec(phase, events[0]), events.drop_first())
    }
}

/// One invocation: the target address, the encoded request, and where the
/// exchange stands. Built fresh for every call; nothing is pooled or reused.
pub struct CommandCall {
    address: String,
    message: String,
    phase: CommandPhase,
}

impl CommandCall {
    pub closed spec fn phase(&self) -> CommandPhase {
        self.phase
    }

    pub closed spec fn address_chars(&self) -> Seq<char> {
        self.address@
    }

    pub closed spec fn message_chars(&self) -> Seq<char> {
        self.message@
    }

    /// A fresh invocation of `method` with the given parameter text against
    /// one `host:port` address. It starts before the connection attempt and
    /// shares no state with any other invocation.
    pub fn new(address: &str, method: &str, params: &str) -> (c: CommandCall)
        ensures
            c.phase() == CommandPhase::Connecting,
            c.address_chars() == address@,
            c.message_chars() == request_line(method@, params@),
    {
        CommandCall {
            address: address.to_owned(),
            message: encode_command(method, params),
            phase: CommandPhase::Connecting,
        }
    }

    /// The target address.
    pub fn address(&self) -> (r: &String)
        ensures
            r@ == self.address_chars(),
    {
        &self.address
    }

    /// The encoded request line to write.
    pub fn message(&self) -> (r: &String)
        ensures
            r@ == self.message_chars(),
    {
        &self.message
    }

    /// What the application must do next.
    pub fn action(&self) -> (a: CommandAction)
        ensures
            a == action_spec(self.phase()),
    {
        match &self.phase {
            CommandPhase::Connecting => CommandAction::Connect,
            CommandPhase::Connected => CommandAction::Write,
            CommandPhase::Sent => CommandAction::Read,
            CommandPhase::Closed(_) => CommandAction::Done,
        }
    }

    /// Feed back what happened: the invocation advances exactly as the
    /// transition relation says, and its address and message never change.
    pub fn step(&mut self, event: CommandEvent)
        ensures
            final(self).phase() == step_spec(old(self).phase(), event),
            final(self).address_chars() == old(self).address_chars(),
            final(self).message_chars() == old(self).message_chars(),
    {
        match event {
            CommandEvent::Connected => {
                if matches!(self.phase, CommandPhase::Connecting) {
                    self.phase = CommandPhase::Connected;
                }
            },
            CommandEvent::ConnectRefused => {
                if matches!(self.phase, CommandPhase::Connecting) {
                    self.phase = CommandPhase::Closed(CommandOutcome::ConnectFailed);
                }
            },
            CommandEvent::WriteOk => {
                if matches!(self.phase, CommandPhase::Connected) {
                    self.phase = CommandPhase::Sent;
                }
            },
            CommandEvent::WriteFailed => {
                if matches!(self.phase, CommandPhase::Connected) {
                    self.phase = CommandPhase::Closed(CommandOutcome::SendFailed);
                }
            },
            CommandEvent::Response { bytes } => {
                if matches!(self.phase, CommandPhase::Sent) {
                    self.phase = CommandPhase::Closed(
                        CommandOutcome::Success { response: bytes },
                    );
                }
            },
            CommandEvent::ReadFailed => {
                if matches!(self.phase, CommandPhase::Sent) {
                    self.phase = CommandPhase::Closed(CommandOutcome::ReadFailed);
                }
            },
        }
    }

    /// Whether the invocation is over.
    pub fn finished(&self) -> (b: bool)
        ensures
            b == (self.phase() is Closed),
    {
        matches!(self.phase, CommandPhase::Closed(_))
    }

    /// The recorded outcome, once the invocation is closed.
    pub fn outcome(&self) -> (r: Option<&CommandOutcome>)
        ensures
            match self.phase() {
                CommandPhase::Closed(o) => r matches Some(x) && *x == o,
                _ => r is None,
            },
    {
        match &self.phase {
            CommandPhase::Closed(o) => Some(o),
            _ => None,
        }
    }
}

/// A refused connection closes the invocation at once with `ConnectFailed`,
/// and no write is ever attempted: a closed invocation demands no further
/// action and absorbs every later event.
pub proof fn lemma_connect_refused_no_write()
    ensures
        step_spec(CommandPhase::Connecting, CommandEvent::ConnectRefused) == CommandPhase::Closed(
            CommandOutcome::ConnectFailed,
        ),
        forall|o: CommandOutcome| action_spec(CommandPhase::Closed(o)) == CommandAction::Done,
        forall|o: CommandOutcome, e: CommandEvent|
            step_spec(CommandPhase::Closed(o), e) == CommandPhase::Closed(o),
{
}

/// Repeating a command is two independent lifecycles: any two invocations
/// standing at the same phase are driven to the same phase by the same
/// events, and every invocation starts at `Connecting` with nothing carried
/// over, so the outcome of each call is a function of that call's own events
/// alone.
pub proof fn lemma_invocations_independent(
    first: CommandPhase,
    second: CommandPhase,
    events: Seq<CommandEvent>,
)
    requires
        first == second,
    ensures
        run_spec(first, events) == run_spec(second, events),
{
}

} // verus!
