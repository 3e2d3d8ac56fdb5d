//! Port inspection for Linux hosts: the parsing of the kernel's TCP socket
//! table and of `ss -tlnp` reports, the bookkeeping of the interactive
//! dashboard, and the process lookups that tie listening ports to programs.

pub mod gui;
pub mod monitor;
pub mod numbers;
pub mod ports;
pub mod proc_net;
pub mod ss;
pub mod system;
pub mod text;
pub mod tui;
