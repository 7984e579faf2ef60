//! VARA command port.
use super::protocol::{VaraCommand, VaraResponse};
use crate::host::HostEvent;
use crate::text::trim;
use vstd::prelude::*;
use vstd::string::*;

verus! {

/// Largest length of a command line in bytes. A client that sends a longer one
/// is disconnected.
pub const MAX_LINE: usize = 4096;

/// The command port.
#[derive(Debug, Clone, Copy, PartialEq, Eq, Structural)]
pub struct VaraCommandPort {
    /// TCP port.
    pub port: u16,
}

/// Whether what was read is a line to act on: there is something, and it is not
/// a line that was cut at the largest length.
pub open spec fn is_line(line: Seq<char>, len: int) -> bool {
    len > 0 && !(len == MAX_LINE && (line.len() == 0 || line.last() != '\n'))
}

/// The event of a parsed command.
pub open spec fn command_event(
    client_id: u32,
    cmd: super::protocol::CommandContent,
    line: Seq<char>,
) -> crate::host::EventContent {
    match cmd {
        super::protocol::CommandContent::Connect { source, destination } =>
            crate::host::EventContent::ConnectRequest { client_id, source, destination },
        super::protocol::CommandContent::Disconnect =>
            crate::host::EventContent::DisconnectRequest { client_id },
        _ => crate::host::EventContent::VaraCommand {
            client_id,
            command: crate::text::trimmed(line),
        },
    }
}

/// The event of a command line.
pub open spec fn line_event(client_id: u32, line: Seq<char>) -> crate::host::EventContent {
    command_event(client_id, super::protocol::parsed(line), line)
}

impl VaraCommandPort {
    /// A command port on a TCP port.
    pub fn new(port: u16) -> (p: Self)
        ensures
            p.port == port,
    {
        VaraCommandPort { port }
    }

    /// What a client is sent when it connects.
    pub fn greeting() -> (line: String)
        ensures
            line@ == "VERSION "@ + "Coppa 0.1.0"@ + "\r\n"@,
    {
        VaraResponse::Version(String::from_str("Coppa 0.1.0")).format()
    }

    /// What a line from a client means. `None` ends the connection: at the end
    /// of the stream, or when the line is longer than allowed.
    pub fn on_line(client_id: u32, line: &str) -> (event: Option<HostEvent>)
        ensures
            if is_line(line@, line.spec_bytes().len() as int) {
                event matches Some(e) && e@ == line_event(client_id, line@) && (
                vstd::utf8::is_ascii_chars(line@) ==> e@ == command_event(
                    client_id,
                    super::protocol::parsed_ascii(line@),
                    line@,
                ))
            } else {
                event is None
            },
    {
        let n: usize = line.as_bytes().len();
        if n == 0 {
            return None;
        }
        let chars: usize = line.unicode_len();
        let ends: bool = chars > 0 && line.get_char(chars - 1) == '\n';
        if n == MAX_LINE && !ends {
            return None;
        }
        let cmd = VaraCommand::parse(line);
        Some(VaraCommandPort::event_of(client_id, cmd, line))
    }

    /// The event of a command that was read from a line.
    pub fn event_of(client_id: u32, cmd: VaraCommand, line: &str) -> (event: HostEvent)
        ensures
            event@ == command_event(client_id, cmd@, line@),
    {
        match cmd {
            VaraCommand::Connect { source, destination } => HostEvent::ConnectRequest {
                client_id,
                source,
                destination,
            },
            VaraCommand::Disconnect => HostEvent::DisconnectRequest { client_id },
            _ => HostEvent::VaraCommand { client_id, command: String::from_str(trim(line)) },
        }
    }
}

/// What is acted on: every line but an empty one, and one of 4096 bytes without
/// its end.
pub proof fn law_lines(line: Seq<char>, len: int)
    requires
        0 <= len,
    ensures
        is_line(line, len) == (len != 0 && (len != 4096 || (line.len() > 0 && line[line.len() - 1]
            == '\n'))),
{
}

/// What commands become: a request to connect or to disconnect its own event,
/// every other command its line without the white space around it.
pub proof fn law_command_events(
    client_id: u32,
    cmd: super::protocol::CommandContent,
    line: Seq<char>,
)
    ensures
        cmd matches super::protocol::CommandContent::Connect { source, destination }
            ==> command_event(client_id, cmd, line) == (crate::host::EventContent::ConnectRequest {
            client_id,
            source,
            destination,
        }),
        cmd is Disconnect ==> command_event(client_id, cmd, line) == (
        crate::host::EventContent::DisconnectRequest { client_id }),
        !(cmd is Connect) && !(cmd is Disconnect) ==> command_event(client_id, cmd, line) == (
        crate::host::EventContent::VaraCommand {
            client_id,
            command: crate::text::trimmed(line),
        }),
{
}

} // verus!
