//! VARA server: ports, client numbers and the limit on connections.
use crate::host::{Clients, ClientsContent};
use vstd::prelude::*;
use vstd::string::*;

verus! {

/// First client number of the command port.
pub const FIRST_COMMAND_CLIENT: u32 = 1;

/// First client number of the data port.
pub const FIRST_DATA_CLIENT: u32 = 0x8000_0001;

/// Settings and clients of a VARA-style server.
#[derive(Debug)]
pub struct VaraServer {
    command_port: u16,
    data_port: u16,
    bind_addr: String,
    command_clients: Clients,
    data_clients: Clients,
}

/// What a server holds.
pub struct ServerContent {
    pub command_port: u16,
    pub data_port: u16,
    pub bind_addr: Seq<char>,
    pub command_clients: ClientsContent,
    pub data_clients: ClientsContent,
}

impl View for VaraServer {
    type V = ServerContent;

    closed spec fn view(&self) -> ServerContent {
        ServerContent {
            command_port: self.command_port,
            data_port: self.data_port,
            bind_addr: self.bind_addr@,
            command_clients: self.command_clients@,
            data_clients: self.data_clients@,
        }
    }
}

/// A server without clients.
pub open spec fn idle_server(
    command_port: u16,
    data_port: u16,
    bind_addr: Seq<char>,
) -> ServerContent {
    ServerContent {
        command_port,
        data_port,
        bind_addr,
        command_clients: ClientsContent { next_id: FIRST_COMMAND_CLIENT, active: 0 },
        data_clients: ClientsContent { next_id: FIRST_DATA_CLIENT, active: 0 },
    }
}

impl VaraServer {
    /// A server on two ports of the loopback address.
    pub fn new(command_port: u16, data_port: u16) -> (s: Self)
        ensures
            s@ == idle_server(command_port, data_port, "127.0.0.1"@),
    {
        Self::with_bind_addr(command_port, data_port, String::from_str("127.0.0.1"))
    }

    /// A server on two ports of an address.
    pub fn with_bind_addr(command_port: u16, data_port: u16, bind_addr: String) -> (s: Self)
        ensures
            s@ == idle_server(command_port, data_port, bind_addr@),
    {
        VaraServer {
            command_port,
            data_port,
            bind_addr,
            command_clients: Clients::new(FIRST_COMMAND_CLIENT),
            data_clients: Clients::new(FIRST_DATA_CLIENT),
        }
    }

    /// A server on the usual ports.
    pub fn default_ports() -> (s: Self)
        ensures
            s@ == idle_server(8300, 8301, "127.0.0.1"@),
    {
        Self::new(8300, 8301)
    }

    /// The next client number of the command port.
    pub fn next_cmd_client_id(&mut self) -> (id: u32)
        ensures
            id == old(self)@.command_clients.next_id,
            final(self)@ == (ServerContent {
                command_clients: ClientsContent {
                    next_id: crate::host::next_number(id),
                    ..old(self)@.command_clients
                },
                ..old(self)@
            }),
    {
        self.command_clients.next_id()
    }

    /// The next client number of the data port.
    pub fn next_data_client_id(&mut self) -> (id: u32)
        ensures
            id == old(self)@.data_clients.next_id,
            final(self)@ == (ServerContent {
                data_clients: ClientsContent {
                    next_id: crate::host::next_number(id),
                    ..old(self)@.data_clients
                },
                ..old(self)@
            }),
    {
        self.data_clients.next_id()
    }

    /// The next client number of the command port.
    pub fn next_client_id(&mut self) -> (id: u32)
        ensures
            id == old(self)@.command_clients.next_id,
            final(self)@ == (ServerContent {
                command_clients: ClientsContent {
                    next_id: crate::host::next_number(id),
                    ..old(self)@.command_clients
                },
                ..old(self)@
            }),
    {
        self.next_cmd_client_id()
    }

    /// The command port.
    pub fn command_port(&self) -> (p: u16)
        ensures
            p == self@.command_port,
    {
        self.command_port
    }

    /// The data port.
    pub fn data_port(&self) -> (p: u16)
        ensures
            p == self@.data_port,
    {
        self.data_port
    }

    /// The address to listen on for commands.
    pub fn command_addr(&self) -> (addr: String)
        ensures
            addr@ == self@.bind_addr + ":"@ + crate::text::decimal(self@.command_port as nat),
    {
        let mut addr = self.bind_addr.clone();
        addr.append(":");
        crate::text::push_decimal(&mut addr, self.command_port as u64);
        addr
    }

    /// The address to listen on for data.
    pub fn data_addr(&self) -> (addr: String)
        ensures
            addr@ == self@.bind_addr + ":"@ + crate::text::decimal(self@.data_port as nat),
    {
        let mut addr = self.bind_addr.clone();
        addr.append(":");
        crate::text::push_decimal(&mut addr, self.data_port as u64);
        addr
    }

    /// Accept a client to the command port.
    pub fn accept_command(&mut self) -> (r: Option<u32>)
        ensures
            if old(self)@.command_clients.active < crate::host::MAX_CONCURRENT_CONNECTIONS {
                &&& r == Some(old(self)@.command_clients.next_id)
                &&& final(self)@ == (ServerContent {
                    command_clients: ClientsContent {
                        next_id: crate::host::next_number(old(self)@.command_clients.next_id),
                        active: old(self)@.command_clients.active + 1,
                    },
                    ..old(self)@
                })
            } else {
                &&& r is None
                &&& final(self)@ == old(self)@
            },
    {
        self.command_clients.accept()
    }

    /// Accept a client to the data port.
    pub fn accept_data(&mut self) -> (r: Option<u32>)
        ensures
            if old(self)@.data_clients.active < crate::host::MAX_CONCURRENT_CONNECTIONS {
                &&& r == Some(old(self)@.data_clients.next_id)
                &&& final(self)@ == (ServerContent {
                    data_clients: ClientsContent {
                        next_id: crate::host::next_number(old(self)@.data_clients.next_id),
                        active: old(self)@.data_clients.active + 1,
                    },
                    ..old(self)@
                })
            } else {
                &&& r is None
                &&& final(self)@ == old(self)@
            },
    {
        self.data_clients.accept()
    }

    /// A client left the command port. Without one there nothing changes.
    pub fn release_command(&mut self)
        ensures
            final(self)@ == (ServerContent {
                command_clients: ClientsContent {
                    active: if old(self)@.command_clients.active == 0 {
                        0
                    } else {
                        (old(self)@.command_clients.active - 1) as nat
                    },
                    ..old(self)@.command_clients
                },
                ..old(self)@
            }),
    {
        if self.command_clients.active() > 0 {
            self.command_clients.release();
        }
    }

    /// A client left the data port. Without one there nothing changes.
    pub fn release_data(&mut self)
        ensures
            final(self)@ == (ServerContent {
                data_clients: ClientsContent {
                    active: if old(self)@.data_clients.active == 0 {
                        0
                    } else {
                        (old(self)@.data_clients.active - 1) as nat
                    },
                    ..old(self)@.data_clients
                },
                ..old(self)@
            }),
    {
        if self.data_clients.active() > 0 {
            self.data_clients.release();
        }
    }
}

/// The two ports number their clients apart: the first 2^31 - 1 numbers of
/// either never meet those of the other.
pub proof fn law_ports_number_apart(i: nat, j: nat)
    requires
        i < 0x7FFF_FFFF,
        j < 0x7FFF_FFFF,
    ensures
        crate::host::nth_number(FIRST_COMMAND_CLIENT, i) < 0x8000_0000,
        crate::host::nth_number(FIRST_DATA_CLIENT, j) > 0x8000_0000,
{
    crate::host::law_numbers_are_consecutive(FIRST_COMMAND_CLIENT, i);
    crate::host::law_numbers_are_consecutive(FIRST_DATA_CLIENT, j);
}

/// A new server has no clients, and numbers those of the command port from 1 and
/// those of the data port from 2^31 + 1 on.
pub proof fn law_idle_server(command_port: u16, data_port: u16, bind_addr: Seq<char>)
    ensures
        ({
            let s = idle_server(command_port, data_port, bind_addr);
            &&& s.command_port == command_port
            &&& s.data_port == data_port
            &&& s.bind_addr == bind_addr
            &&& s.command_clients.next_id == 1
            &&& s.command_clients.active == 0
            &&& s.data_clients.next_id == 0x8000_0001
            &&& s.data_clients.active == 0
        }),
{
}

} // verus!
