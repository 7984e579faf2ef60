//! Verified core of the Coppa amateur-radio data modem: link framing, error
//! correction, selective-repeat delivery, and the decisions of the host
//! interfaces and of the adaptive link control.
pub mod app;
pub mod arq;
pub mod ax25;
pub mod bits;
pub mod checksum;
pub mod compression;
pub mod cp_negotiator;
pub mod fec;
pub mod frame;
pub mod host;
pub mod kiss;
pub mod link;
pub mod mac;
pub mod text;
