//! Host interfaces: what the TCP and WebSocket front ends decide.
pub mod vara;
pub mod websocket;

use vstd::prelude::*;

verus! {

/// Largest number of clients connected to one port at a time.
pub const MAX_CONCURRENT_CONNECTIONS: usize = 16;

/// What a client of a host interface did.
#[derive(Debug, Clone, PartialEq, Eq)]
pub enum HostEvent {
    /// A client connected.
    Connected { client_id: u32 },
    /// A client disconnected.
    Disconnected { client_id: u32 },
    /// A client asks for a connection between two stations.
    ConnectRequest { client_id: u32, source: String, destination: String },
    /// A client asks to end the connection.
    DisconnectRequest { client_id: u32 },
    /// A client sends data.
    DataReceived { client_id: u32, data: Vec<u8> },
    /// A client sends a command.
    VaraCommand { client_id: u32, command: String },
}

/// What an event says.
pub enum EventContent {
    Connected { client_id: u32 },
    Disconnected { client_id: u32 },
    ConnectRequest { client_id: u32, source: Seq<char>, destination: Seq<char> },
    DisconnectRequest { client_id: u32 },
    DataReceived { client_id: u32, data: Seq<u8> },
    VaraCommand { client_id: u32, command: Seq<char> },
}

impl View for HostEvent {
    type V = EventContent;

    open spec fn view(&self) -> EventContent {
        match *self {
            HostEvent::Connected { client_id } => EventContent::Connected { client_id },
            HostEvent::Disconnected { client_id } => EventContent::Disconnected { client_id },
            HostEvent::ConnectRequest { client_id, source, destination } =>
                EventContent::ConnectRequest {
                client_id,
                source: source@,
                destination: destination@,
            },
            HostEvent::DisconnectRequest { client_id } => EventContent::DisconnectRequest {
                client_id,
            },
            HostEvent::DataReceived { client_id, data } => EventContent::DataReceived {
                client_id,
                data: data@,
            },
            HostEvent::VaraCommand { client_id, command } => EventContent::VaraCommand {
                client_id,
                command: command@,
            },
        }
    }
}

/// Numbers for the clients of a port, and how many are connected.
#[derive(Debug)]
pub struct Clients {
    next_id: u32,
    active: usize,
}

/// What a list of clients holds.
pub struct ClientsContent {
    /// The next number to give out.
    pub next_id: u32,
    /// Clients connected.
    pub active: nat,
}

impl View for Clients {
    type V = ClientsContent;

    closed spec fn view(&self) -> ClientsContent {
        ClientsContent { next_id: self.next_id, active: self.active as nat }
    }
}

/// The number after a number, going round at the end.
pub open spec fn next_number(id: u32) -> u32 {
    if id == u32::MAX {
        0
    } else {
        (id + 1) as u32
    }
}

/// The number that is given out after `k` others.
pub open spec fn nth_number(first: u32, k: nat) -> u32
    decreases k,
{
    if k == 0 {
        first
    } else {
        next_number(nth_number(first, (k - 1) as nat))
    }
}

impl Clients {
    /// A list that gives out numbers from `first` on.
    pub fn new(first: u32) -> (a: Self)
        ensures
            a@ == (ClientsContent { next_id: first, active: 0 }),
    {
        Clients { next_id: first, active: 0 }
    }

    /// The next number.
    pub fn next_id(&mut self) -> (id: u32)
        ensures
            id == old(self)@.next_id,
            final(self)@ == (ClientsContent { next_id: next_number(id), ..old(self)@ }),
    {
        let id: u32 = self.next_id;
        self.next_id = self.next_id.wrapping_add(1);
        id
    }

    /// Accept a client, unless as many are connected as allowed. Only a client
    /// that is accepted gets a number.
    pub fn accept(&mut self) -> (r: Option<u32>)
        ensures
            if old(self)@.active < MAX_CONCURRENT_CONNECTIONS {
                &&& r == Some(old(self)@.next_id)
                &&& final(self)@ == (ClientsContent {
                    next_id: next_number(old(self)@.next_id),
                    active: old(self)@.active + 1,
                })
            } else {
                &&& r is None
                &&& final(self)@ == old(self)@
            },
    {
        if self.active >= MAX_CONCURRENT_CONNECTIONS {
            return None;
        }
        self.active = self.active + 1;
        Some(self.next_id())
    }

    /// A client that was accepted left.
    pub fn release(&mut self)
        requires
            old(self)@.active > 0,
        ensures
            final(self)@ == (ClientsContent {
                active: (old(self)@.active - 1) as nat,
                ..old(self)@
            }),
    {
        self.active = self.active - 1;
    }

    /// Number of clients connected.
    pub fn active(&self) -> (n: usize)
        ensures
            n == self@.active,
    {
        self.active
    }
}

/// Numbers given out are consecutive, and differ until all have been used.
pub proof fn law_numbers_are_consecutive(first: u32, k: nat)
    requires
        first + k <= u32::MAX,
    ensures
        nth_number(first, k) == first + k,
    decreases k,
{
    if k > 0 {
        law_numbers_are_consecutive(first, (k - 1) as nat);
    }
}

/// Numbers go up by one and start over at zero after 2^32 - 1, and a port has
/// room for sixteen clients.
pub proof fn law_next_number(id: u32)
    ensures
        next_number(id) == (id + 1) % 0x1_0000_0000,
        MAX_CONCURRENT_CONNECTIONS == 16,
{
}

} // verus!
