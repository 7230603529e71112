//! The plain data that flows between launching, the share service and the UI.
use vstd::prelude::*;

use crate::text::{decimal, push_char, push_decimal};

verus! {

/// An IPv4 address by its four octets, most significant first.
#[derive(Debug, Clone, Copy, PartialEq, Eq, Structural)]
pub struct Ipv4(pub u8, pub u8, pub u8, pub u8);

/// Dotted-decimal notation of an address, as `Ipv4Addr` displays it.
pub open spec fn ipv4_text(ip: Ipv4) -> Seq<char> {
    decimal(ip.0 as nat) + seq!['.'] + decimal(ip.1 as nat) + seq!['.']
        + decimal(ip.2 as nat) + seq!['.'] + decimal(ip.3 as nat)
}

/// Appends the dotted-decimal notation of `ip` to `s`.
pub fn push_ipv4(s: &mut String, ip: &Ipv4)
    ensures
        final(s)@ == old(s)@ + ipv4_text(*ip),
{
    push_decimal(s, ip.0 as u64);
    push_char(s, '.');
    push_decimal(s, ip.1 as u64);
    push_char(s, '.');
    push_decimal(s, ip.2 as u64);
    push_char(s, '.');
    push_decimal(s, ip.3 as u64);
    assert(s@ == old(s)@ + ipv4_text(*ip));
}

/// How the program was started: with nothing to share, or with a target.
#[derive(Debug, Clone)]
pub enum LaunchMode {
    Idle,
    Share(ShareTarget),
}

/// A file or folder chosen for sharing.
#[derive(Debug, Clone)]
pub struct ShareTarget {
    pub original_path: String,
    pub display_name: String,
    pub is_dir: bool,
}

/// What the window reports about the share.
#[derive(Debug, Clone, Copy, PartialEq, Eq, Structural)]
pub enum ShareStatus {
    Idle,
    Starting,
    Running,
    Stopped,
    Error,
}

/// A local address that the share can be offered on, with its menu label.
#[derive(Debug, Clone)]
pub struct NetworkCandidate {
    pub ip: Ipv4,
    pub label: String,
}

/// A running share: where it listens and the address to open.
#[derive(Debug, Clone)]
pub struct ShareSession {
    pub ip: Ipv4,
    pub port: u16,
    pub route: String,
    pub url: String,
}

/// The state of the share service's server.
#[derive(Debug, Clone, Copy, PartialEq, Eq)]
pub enum ProcessState {
    NotStarted,
    Running,
    Exited(Option<i32>),
}

} // verus!
