//! Decision logic of a Wi-Fi captive portal for the Raspberry Pi Pico 2 W.
//!
//! The device opens an access point, leads every client to its portal page, lists
//! the networks around it, and joins the one that the user chooses.
//!
//!   - [`dhcp_server`] hands out addresses, [`dns_server`] answers every query with
//!     the device's own.
//!   - [`request`] reads and parses HTTP requests, [`http`] answers them.
//!   - [`wifi`] keeps the list of scanned networks, [`net`] is the machine that leads
//!     from the portal to the chosen network and back.
//!   - [`morse`] blinks the status, and messages, on the LED.
//!   - [`shared`] and [`ipc`] hold what these tell each other; [`text`], [`bytes`] and
//!     [`utf8`] what they build on.
//!
//! Sockets, the radio and the clock are the caller's: functions here take what was
//! received and return what to send or do.

pub mod bytes;
pub mod dhcp_server;
pub mod dns_server;
pub mod http;
pub mod ipc;
pub mod morse;
pub mod net;
pub mod request;
pub mod shared;
pub mod text;
pub mod utf8;
pub mod wifi;
