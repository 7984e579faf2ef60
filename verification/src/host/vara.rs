//! VARA-style TCP control protocol.
//!
//! The control protocol follows that of VARA HF. The waveform does not: the
//! modem is not compatible with VARA on the air.
pub mod command;
pub mod data;
pub mod protocol;
pub mod server;

pub use protocol::{VaraCommand, VaraResponse};
pub use server::VaraServer;
