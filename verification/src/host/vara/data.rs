//! VARA data port.
use crate::host::HostEvent;
use vstd::prelude::*;

verus! {

/// The data port.
#[derive(Debug, Clone, Copy, PartialEq, Eq, Structural)]
pub struct VaraDataPort {
    /// TCP port.
    pub port: u16,
}

impl VaraDataPort {
    /// A data port on a TCP port.
    pub fn new(port: u16) -> (p: Self)
        ensures
            p.port == port,
    {
        VaraDataPort { port }
    }

    /// What a read from a client means: nothing read is the end of the
    /// connection, everything else is passed on.
    pub fn on_read(client_id: u32, bytes: &[u8]) -> (event: Option<HostEvent>)
        ensures
            if bytes@.len() == 0 {
                event is None
            } else {
                event matches Some(e) && e@ == (crate::host::EventContent::DataReceived {
                    client_id,
                    data: bytes@,
                })
            },
    {
        if bytes.len() == 0 {
            return None;
        }
        Some(HostEvent::DataReceived { client_id, data: vstd::slice::slice_to_vec(bytes) })
    }
}

} // verus!
