//! WebSocket interface: what a connection does with the messages of its client
//! and with those that are broadcast.
//!
//! Messages are JSON texts. Reading and writing them is the caller's, who hands
//! a connection what a text was read as.
use super::{Clients, ClientsContent, HostEvent};
use crate::text::same;
use vstd::prelude::*;
use vstd::string::*;

verus! {

/// A message from a client.
#[derive(Debug, Clone, PartialEq, Eq)]
pub enum WsClientMessage {
    /// Set the callsign of the station.
    MyCall { callsign: String },
    /// Connect two stations.
    Connect { source: String, destination: String },
    /// End the connection.
    Disconnect,
    /// Send data.
    Send { data: String },
    /// Ask for the status.
    Status,
    /// Ask for spectrum messages, or for none.
    Spectrum { enabled: bool },
}

/// The live status, which is kept up to date as frames are decoded and stations
/// connect.
#[derive(Debug, PartialEq, Eq)]
pub struct WsStatus {
    /// Whether a station is connected.
    pub connected: bool,
    /// Callsign of that station.
    pub remote_call: Option<String>,
    /// Signal-to-noise ratio.
    pub snr: Option<i32>,
    /// Speed level of the last decoded frame.
    pub level: Option<u8>,
    /// Carrier frequency offset of the last decoded frame in Hz, as the bits of
    /// a single-precision number.
    pub cfo_bits: Option<u32>,
}

/// What a status says.
pub struct StatusContent {
    pub connected: bool,
    pub remote_call: Option<Seq<char>>,
    pub snr: Option<i32>,
    pub level: Option<u8>,
    pub cfo_bits: Option<u32>,
}

impl View for WsStatus {
    type V = StatusContent;

    open spec fn view(&self) -> StatusContent {
        StatusContent {
            connected: self.connected,
            remote_call: crate::host::vara::protocol::optional_text(self.remote_call),
            snr: self.snr,
            level: self.level,
            cfo_bits: self.cfo_bits,
        }
    }
}

impl Default for WsStatus {
    fn default() -> (s: Self)
        ensures
            s@ == (StatusContent {
                connected: false,
                remote_call: None,
                snr: None,
                level: None,
                cfo_bits: None,
            }),
    {
        WsStatus { connected: false, remote_call: None, snr: None, level: None, cfo_bits: None }
    }
}

impl Clone for WsStatus {
    fn clone(&self) -> (s: Self)
        ensures
            s@ == self@,
    {
        WsStatus {
            connected: self.connected,
            remote_call: match &self.remote_call {
                Some(call) => Some(call.clone()),
                None => None,
            },
            snr: self.snr,
            level: self.level,
            cfo_bits: self.cfo_bits,
        }
    }
}

/// What a connection has to do.
#[derive(Debug, Clone, PartialEq, Eq)]
pub enum WsAction {
    /// Pass an event on.
    Emit(HostEvent),
    /// Answer with a status.
    ReplyStatus(WsStatus),
    /// Answer with an error.
    ReplyError(String),
    /// Send a text to the client.
    Forward(String),
    /// Do nothing.
    Ignore,
    /// Close the connection.
    Close,
}

/// What an action says.
pub enum ActionContent {
    Emit(super::EventContent),
    ReplyStatus(StatusContent),
    ReplyError(Seq<char>),
    Forward(Seq<char>),
    Ignore,
    Close,
}

impl View for WsAction {
    type V = ActionContent;

    open spec fn view(&self) -> ActionContent {
        match *self {
            WsAction::Emit(e) => ActionContent::Emit(e@),
            WsAction::ReplyStatus(s) => ActionContent::ReplyStatus(s@),
            WsAction::ReplyError(m) => ActionContent::ReplyError(m@),
            WsAction::Forward(t) => ActionContent::Forward(t@),
            WsAction::Ignore => ActionContent::Ignore,
            WsAction::Close => ActionContent::Close,
        }
    }
}

/// What comes from a client.
#[derive(Debug, PartialEq, Eq)]
pub enum WsInput {
    /// A text, and what it was read as, or why it could not be read.
    Text { text: String, parsed: Result<WsClientMessage, String> },
    /// A frame that is no text.
    OtherFrame,
    /// The client closes, the stream ends or fails.
    Closed,
}

/// What comes from the broadcast.
#[derive(Debug, Clone, PartialEq, Eq)]
pub enum WsBroadcast {
    /// A text for every client.
    Text(String),
    /// Texts were missed.
    Lagged,
    /// Nothing more will come.
    Closed,
}

/// The value of a text field of a JSON object, as `serde_json` reads it:
/// nothing where the text is no JSON, no object, or has no such field with a
/// string in it.
pub uninterp spec fn json_text_field(json: Seq<char>, key: Seq<char>) -> Option<Seq<char>>;

/// Calls `serde_json::from_str` for a `serde_json::Value` and looks up a field
/// of it. The result is named `json_text_field`; it depends on the two texts
/// alone.
#[verifier::external_body]
fn read_text_field(json: &str, key: &str) -> (value: Option<String>)
    ensures
        crate::host::vara::protocol::optional_text(value) == json_text_field(json@, key@),
{
    let value = serde_json::from_str::<serde_json::Value>(json).ok()?;
    value.get(key)?.as_str().map(String::from)
}

/// Whether the type of a message is that of spectrum messages.
pub open spec fn is_spectrum_type(tag: Option<Seq<char>>) -> bool {
    tag == Some("spectrum"@)
}

/// Whether the type of a message is that of spectrum messages.
pub fn is_spectrum_tag(tag: &Option<String>) -> (b: bool)
    ensures
        b == is_spectrum_type(crate::host::vara::protocol::optional_text(*tag)),
{
    match tag {
        Some(t) => same(t.as_str(), "spectrum"),
        None => false,
    }
}

/// Whether a broadcast text is a spectrum message.
pub fn is_spectrum_broadcast(json: &str) -> (b: bool)
    ensures
        b == is_spectrum_type(json_text_field(json@, "type"@)),
{
    is_spectrum_tag(&read_text_field(json, "type"))
}

/// What a connection does about a message, where `status` is the live status.
pub open spec fn message_action(
    client_id: u32,
    text: Seq<char>,
    msg: WsClientMessage,
    status: StatusContent,
) -> ActionContent {
    match msg {
        WsClientMessage::MyCall { callsign } => ActionContent::Emit(
            super::EventContent::VaraCommand { client_id, command: text },
        ),
        WsClientMessage::Connect { source, destination } => ActionContent::Emit(
            super::EventContent::ConnectRequest {
                client_id,
                source: source@,
                destination: destination@,
            },
        ),
        WsClientMessage::Disconnect => ActionContent::Emit(
            super::EventContent::DisconnectRequest { client_id },
        ),
        WsClientMessage::Send { data } => ActionContent::Emit(
            super::EventContent::DataReceived {
                client_id,
                data: vstd::utf8::encode_utf8(data@),
            },
        ),
        WsClientMessage::Status => ActionContent::ReplyStatus(status),
        WsClientMessage::Spectrum { enabled } => ActionContent::Ignore,
    }
}

/// What a connection does about an input, where `status` is the live status.
pub open spec fn input_action(
    client_id: u32,
    input: WsInput,
    status: StatusContent,
) -> ActionContent {
    match input {
        WsInput::Text { text, parsed } => match parsed {
            Ok(msg) => message_action(client_id, text@, msg, status),
            Err(e) => ActionContent::ReplyError("Invalid message: "@ + e@),
        },
        WsInput::OtherFrame => ActionContent::Ignore,
        WsInput::Closed => ActionContent::Close,
    }
}

/// Whether a client wants spectrum messages after an input.
pub open spec fn wants_spectrum(before: bool, input: WsInput) -> bool {
    match input {
        WsInput::Text { text, parsed: Ok(WsClientMessage::Spectrum { enabled }) } => enabled,
        _ => before,
    }
}

/// What a connection does about a broadcast, where `spectrum` tells whether it
/// is a spectrum message.
pub open spec fn broadcast_action(wanted: bool, b: WsBroadcast, spectrum: bool) -> ActionContent {
    match b {
        WsBroadcast::Text(text) => if spectrum && !wanted {
            ActionContent::Ignore
        } else {
            ActionContent::Forward(text@)
        },
        WsBroadcast::Lagged => ActionContent::Ignore,
        WsBroadcast::Closed => ActionContent::Close,
    }
}

/// Whether a broadcast is a spectrum message.
pub open spec fn is_spectrum(b: WsBroadcast) -> bool {
    match b {
        WsBroadcast::Text(text) => is_spectrum_type(json_text_field(text@, "type"@)),
        _ => false,
    }
}

/// One connection. Spectrum messages are sent only to clients that asked for
/// them.
#[derive(Debug)]
pub struct WsConnection {
    client_id: u32,
    spectrum_enabled: bool,
}

/// What a connection holds.
pub struct ConnectionContent {
    pub client_id: u32,
    pub spectrum_enabled: bool,
}

impl View for WsConnection {
    type V = ConnectionContent;

    closed spec fn view(&self) -> ConnectionContent {
        ConnectionContent { client_id: self.client_id, spectrum_enabled: self.spectrum_enabled }
    }
}

impl WsConnection {
    /// The connection of a client, without spectrum messages.
    pub fn new(client_id: u32) -> (c: Self)
        ensures
            c@ == (ConnectionContent { client_id, spectrum_enabled: false }),
    {
        WsConnection { client_id, spectrum_enabled: false }
    }

    /// Take in what comes from the client. `status` is the status that a
    /// request for it is answered with.
    pub fn on_input(&mut self, input: WsInput, status: &WsStatus) -> (action: WsAction)
        ensures
            action@ == input_action(old(self)@.client_id, input, status@),
            final(self)@ == (ConnectionContent {
                spectrum_enabled: wants_spectrum(old(self)@.spectrum_enabled, input),
                ..old(self)@
            }),
    {
        match input {
            WsInput::Text { text, parsed } => match parsed {
                Ok(msg) => self.on_message(text, msg, status),
                Err(e) => {
                    let mut m = String::from_str("Invalid message: ");
                    m.append(e.as_str());
                    WsAction::ReplyError(m)
                },
            },
            WsInput::OtherFrame => WsAction::Ignore,
            WsInput::Closed => WsAction::Close,
        }
    }

    fn on_message(&mut self, text: String, msg: WsClientMessage, status: &WsStatus) -> (action:
        WsAction)
        ensures
            action@ == message_action(old(self)@.client_id, text@, msg, status@),
            final(self)@ == (ConnectionContent {
                spectrum_enabled: match msg {
                    WsClientMessage::Spectrum { enabled } => enabled,
                    _ => old(self)@.spectrum_enabled,
                },
                ..old(self)@
            }),
    {
        let client_id: u32 = self.client_id;
        match msg {
            WsClientMessage::MyCall { callsign: _ } => WsAction::Emit(
                HostEvent::VaraCommand { client_id, command: text },
            ),
            WsClientMessage::Connect { source, destination } => WsAction::Emit(
                HostEvent::ConnectRequest { client_id, source, destination },
            ),
            WsClientMessage::Disconnect => WsAction::Emit(
                HostEvent::DisconnectRequest { client_id },
            ),
            WsClientMessage::Send { data } => WsAction::Emit(
                HostEvent::DataReceived {
                    client_id,
                    data: vstd::slice::slice_to_vec(data.as_str().as_bytes()),
                },
            ),
            WsClientMessage::Status => WsAction::ReplyStatus(status.clone()),
            WsClientMessage::Spectrum { enabled } => {
                self.spectrum_enabled = enabled;
                WsAction::Ignore
            },
        }
    }

    /// What to do about a broadcast.
    pub fn on_broadcast(&self, b: WsBroadcast) -> (action: WsAction)
        ensures
            action@ == broadcast_action(self@.spectrum_enabled, b, is_spectrum(b)),
    {
        let spectrum: bool = match &b {
            WsBroadcast::Text(text) => is_spectrum_broadcast(text.as_str()),
            _ => false,
        };
        self.on_tagged_broadcast(b, spectrum)
    }

    /// What to do about a broadcast, where `spectrum` tells whether it is a
    /// spectrum message.
    pub fn on_tagged_broadcast(&self, b: WsBroadcast, spectrum: bool) -> (action: WsAction)
        ensures
            action@ == broadcast_action(self@.spectrum_enabled, b, spectrum),
    {
        match b {
            WsBroadcast::Text(text) => if spectrum && !self.spectrum_enabled {
                WsAction::Ignore
            } else {
                WsAction::Forward(text)
            },
            WsBroadcast::Lagged => WsAction::Ignore,
            WsBroadcast::Closed => WsAction::Close,
        }
    }
}

/// Port, address and clients of a WebSocket server.
#[derive(Debug)]
pub struct WebSocketServer {
    port: u16,
    bind_addr: String,
    clients: Clients,
}

/// What a server holds.
pub struct WsServerContent {
    pub port: u16,
    pub bind_addr: Seq<char>,
    pub clients: ClientsContent,
}

impl View for WebSocketServer {
    type V = WsServerContent;

    closed spec fn view(&self) -> WsServerContent {
        WsServerContent {
            port: self.port,
            bind_addr: self.bind_addr@,
            clients: self.clients@,
        }
    }
}

/// A server without clients. Client numbers start at one.
pub open spec fn idle_server(port: u16, bind_addr: Seq<char>) -> WsServerContent {
    WsServerContent { port, bind_addr, clients: ClientsContent { next_id: 1, active: 0 } }
}

impl WebSocketServer {
    /// A server on a port of the loopback address.
    pub fn new(port: u16) -> (s: Self)
        ensures
            s@ == idle_server(port, "127.0.0.1"@),
    {
        Self::with_bind_addr(port, String::from_str("127.0.0.1"))
    }

    /// A server on a port of an address.
    pub fn with_bind_addr(port: u16, bind_addr: String) -> (s: Self)
        ensures
            s@ == idle_server(port, bind_addr@),
    {
        WebSocketServer { port, bind_addr, clients: Clients::new(1) }
    }

    /// A server on the usual port.
    pub fn default_port() -> (s: Self)
        ensures
            s@ == idle_server(8400, "127.0.0.1"@),
    {
        Self::new(8400)
    }

    /// The port.
    pub fn port(&self) -> (p: u16)
        ensures
            p == self@.port,
    {
        self.port
    }

    /// The address to listen on.
    pub fn addr(&self) -> (addr: String)
        ensures
            addr@ == self@.bind_addr + ":"@ + crate::text::decimal(self@.port as nat),
    {
        let mut addr = self.bind_addr.clone();
        addr.append(":");
        crate::text::push_decimal(&mut addr, self.port as u64);
        addr
    }

    /// Accept a client, unless as many are connected as allowed.
    pub fn accept(&mut self) -> (r: Option<u32>)
        ensures
            if old(self)@.clients.active < super::MAX_CONCURRENT_CONNECTIONS {
                &&& r == Some(old(self)@.clients.next_id)
                &&& final(self)@ == (WsServerContent {
                    clients: ClientsContent {
                        next_id: super::next_number(old(self)@.clients.next_id),
                        active: old(self)@.clients.active + 1,
                    },
                    ..old(self)@
                })
            } else {
                &&& r is None
                &&& final(self)@ == old(self)@
            },
    {
        self.clients.accept()
    }

    /// A client left. Without one there nothing changes.
    pub fn release(&mut self)
        ensures
            final(self)@ == (WsServerContent {
                clients: ClientsContent {
                    active: if old(self)@.clients.active == 0 {
                        0
                    } else {
                        (old(self)@.clients.active - 1) as nat
                    },
                    ..old(self)@.clients
                },
                ..old(self)@
            }),
    {
        if self.clients.active() > 0 {
            self.clients.release();
        }
    }
}

/// A spectrum message reaches a client exactly when it last asked for them;
/// every other text reaches every client.
pub proof fn law_spectrum_is_opt_in(text: String, wanted: bool, spectrum: bool)
    ensures
        (broadcast_action(wanted, WsBroadcast::Text(text), spectrum) == ActionContent::Forward(
            text@,
        )) == (!spectrum || wanted),
{
}

/// Whether an input asks to turn spectrum messages on or off.
pub open spec fn asks_for_spectrum(input: WsInput, enabled: bool) -> bool {
    input matches WsInput::Text { text, parsed: Ok(WsClientMessage::Spectrum { enabled: e }) } && e
        == enabled
}

/// Only a request about the spectrum changes whether it is wanted.
pub proof fn law_only_spectrum_requests_switch(before: bool, input: WsInput)
    ensures
        wants_spectrum(before, input) != before ==> asks_for_spectrum(input, !before),
        forall|enabled: bool| #[trigger]
            asks_for_spectrum(input, enabled) ==> wants_spectrum(before, input) == enabled,
{
}

/// Whether a client wants spectrum messages after all its inputs.
pub open spec fn wanted_after(inputs: Seq<WsInput>) -> bool
    decreases inputs.len(),
{
    if inputs.len() == 0 {
        false
    } else {
        wants_spectrum(wanted_after(inputs.drop_last()), inputs.last())
    }
}

/// A client gets spectrum messages exactly when the latest of its requests about
/// them asked for them; without a request it gets none.
pub proof fn law_latest_request_decides(inputs: Seq<WsInput>)
    ensures
        forall|i: int, enabled: bool|
            0 <= i < inputs.len() && #[trigger] asks_for_spectrum(inputs[i], enabled) && (forall|
                j: int,
                other: bool,
            |
                i < j < inputs.len() ==> !#[trigger] asks_for_spectrum(inputs[j], other))
                ==> wanted_after(inputs) == enabled,
        (forall|j: int, other: bool|
            0 <= j < inputs.len() ==> !#[trigger] asks_for_spectrum(inputs[j], other))
            ==> !wanted_after(inputs),
    decreases inputs.len(),
{
    if inputs.len() > 0 {
        let front = inputs.drop_last();
        law_latest_request_decides(front);
        law_only_spectrum_requests_switch(wanted_after(front), inputs.last());
        assert forall|i: int, enabled: bool|
            0 <= i < inputs.len() && #[trigger] asks_for_spectrum(inputs[i], enabled) && (forall|
                j: int,
                other: bool,
            |
                i < j < inputs.len() ==> !#[trigger] asks_for_spectrum(
                    inputs[j],
                    other,
                )) implies wanted_after(inputs) == enabled by {
            if i < front.len() {
                assert(asks_for_spectrum(front[i], enabled));
                assert forall|j: int, other: bool|
                    i < j < front.len() implies !#[trigger] asks_for_spectrum(front[j], other) by {
                    assert(!asks_for_spectrum(inputs[j], other));
                }
                assert(!asks_for_spectrum(inputs[inputs.len() - 1], !wanted_after(front)));
            }
        }
        if forall|j: int, other: bool|
            0 <= j < inputs.len() ==> !#[trigger] asks_for_spectrum(inputs[j], other) {
            assert forall|j: int, other: bool|
                0 <= j < front.len() implies !#[trigger] asks_for_spectrum(front[j], other) by {
                assert(!asks_for_spectrum(inputs[j], other));
            }
            assert(!asks_for_spectrum(inputs[inputs.len() - 1], !wanted_after(front)));
        }
    }
}

/// Whether an input asks for the status.
pub open spec fn asks_for_status(input: WsInput) -> bool {
    input matches WsInput::Text { text, parsed: Ok(WsClientMessage::Status) }
}

/// A request for the status is answered with the live status as it is, and with
/// nothing else: no event is passed on. Nothing but such a request is answered
/// with a status.
pub proof fn law_status_reply_is_live(client_id: u32, input: WsInput, status: StatusContent)
    ensures
        asks_for_status(input) ==> input_action(client_id, input, status)
            == ActionContent::ReplyStatus(status),
        !asks_for_status(input) ==> !(input_action(client_id, input, status) is ReplyStatus),
{
}

/// What the messages of a client lead to: its callsign is passed on as the text
/// that came, a request to connect, to disconnect or to send as its own event,
/// with the bytes of the text to send. A text that cannot be read is answered
/// with the reason, other frames are passed over, and the end closes.
pub proof fn law_messages(
    client_id: u32,
    text: String,
    msg: WsClientMessage,
    why: String,
    status: StatusContent,
)
    ensures
        ({
            let action = input_action(client_id, WsInput::Text { text, parsed: Ok(msg) }, status);
            &&& action == message_action(client_id, text@, msg, status)
            &&& msg is MyCall ==> action == ActionContent::Emit(
                super::EventContent::VaraCommand { client_id, command: text@ },
            )
            &&& msg matches WsClientMessage::Connect { source, destination } ==> action
                == ActionContent::Emit(
                super::EventContent::ConnectRequest {
                    client_id,
                    source: source@,
                    destination: destination@,
                },
            )
            &&& msg is Disconnect ==> action == ActionContent::Emit(
                super::EventContent::DisconnectRequest { client_id },
            )
            &&& msg matches WsClientMessage::Send { data } ==> action == ActionContent::Emit(
                super::EventContent::DataReceived {
                    client_id,
                    data: vstd::utf8::encode_utf8(data@),
                },
            )
            &&& msg is Spectrum ==> action == ActionContent::Ignore
        }),
        input_action(client_id, WsInput::Text { text, parsed: Err(why) }, status)
            == ActionContent::ReplyError("Invalid message: "@ + why@),
        input_action(client_id, WsInput::OtherFrame, status) == ActionContent::Ignore,
        input_action(client_id, WsInput::Closed, status) == ActionContent::Close,
{
}

/// What broadcasts lead to besides texts, and which type of text is a spectrum
/// message.
pub proof fn law_broadcasts(wanted: bool, spectrum: bool, tag: Option<Seq<char>>)
    ensures
        broadcast_action(wanted, WsBroadcast::Lagged, spectrum) == ActionContent::Ignore,
        broadcast_action(wanted, WsBroadcast::Closed, spectrum) == ActionContent::Close,
        is_spectrum_type(Some("spectrum"@)),
        is_spectrum_type(tag) ==> tag == Some("spectrum"@),
        !is_spectrum_type(None),
{
}

} // verus!
