//! The decisions behind each command: what `wake` sends and where, what
//! `add` stores or rejects. Reading and writing the store, checking socket
//! addresses and sending datagrams are left to the caller.

use vstd::prelude::*;
use crate::mac::{is_mac, is_mac_error, mac_bytes, parse_mac_address, MacError};
use crate::packet::{create_magic_packet, magic_packet};
use crate::store::{Config, HostConfig, HostView};

verus! {

/// What can go wrong while running a command.
#[derive(Debug, PartialEq, Eq)]
pub enum WakeError {
    /// The store file exists but could not be read.
    ConfigRead(String),
    /// The store file could not be parsed.
    ConfigParse(String),
    /// The store file or its directory could not be written.
    ConfigWrite(String),
    /// The text `mac` is not a MAC address, for the reason given.
    MacFormat { mac: String, reason: MacError },
    /// The text is not an `ip:port` socket address.
    AddressParse(String),
    /// No UDP socket could be bound.
    SocketBind(String),
    /// Broadcasting could not be enabled on the socket.
    BroadcastEnable(String),
    /// The datagram could not be sent.
    Send(String),
    /// No host of this name is stored.
    HostNotFound(String),
}

/// The default broadcast address: every host on the local network, UDP port 9.
pub open spec fn default_broadcast_spec() -> Seq<char> {
    "255.255.255.255:9"@
}

/// The broadcast address used when none is given.
pub fn default_broadcast() -> (r: String)
    ensures
        r@ == default_broadcast_spec(),
{
    "255.255.255.255:9".to_owned()
}

/// The broadcast address to store: the one given, else the default.
pub fn resolve_broadcast(broadcast: Option<String>) -> (r: String)
    ensures
        r@ == match broadcast {
            Some(b) => b@,
            None => default_broadcast_spec(),
        },
{
    match broadcast {
        Some(b) => b,
        None => default_broadcast(),
    }
}

/// The magic packet that wakes the interface whose MAC address is the text
/// `mac`, or why that text is not a MAC address.
pub fn wake_packet(mac: &str) -> (r: Result<Vec<u8>, MacError>)
    ensures
        r is Ok <==> is_mac(mac@),
        match r {
            Ok(packet) => packet@ == magic_packet(mac_bytes(mac@)),
            Err(e) => is_mac_error(mac@, e),
        },
{
    match parse_mac_address(mac) {
        Ok(bytes) => Ok(create_magic_packet(bytes)),
        Err(e) => Err(e),
    }
}

/// A datagram to send: the payload and the `ip:port` to send it to.
pub struct WakeRequest {
    pub packet: Vec<u8>,
    pub broadcast: String,
}

/// What `wake host` sends: the magic packet for the stored MAC address, to
/// the stored broadcast address. Fails when the host is not stored, or its
/// stored MAC address is not one.
pub fn plan_wake(config: &Config, host: &str) -> (r: Result<WakeRequest, WakeError>)
    requires
        config.wf(),
    ensures
        !config@.contains_key(host@) <==> (r matches Err(WakeError::HostNotFound(h)) && h@ == host@),
        config@.contains_key(host@) ==> match r {
            Ok(req) => {
                &&& is_mac(config@[host@].mac)
                &&& req.packet@ == magic_packet(mac_bytes(config@[host@].mac))
                &&& req.broadcast@ == config@[host@].broadcast
            },
            Err(WakeError::MacFormat { mac, reason }) => {
                &&& !is_mac(config@[host@].mac)
                &&& mac@ == config@[host@].mac
                &&& is_mac_error(mac@, reason)
            },
            Err(_) => false,
        },
{
    match config.get(host) {
        None => Err(WakeError::HostNotFound(host.to_owned())),
        Some(h) => match wake_packet(h.mac.as_str()) {
            Ok(packet) => Ok(WakeRequest { packet, broadcast: h.broadcast.clone() }),
            Err(reason) => Err(WakeError::MacFormat { mac: h.mac.clone(), reason }),
        },
    }
}

/// Adds the host `name`, reached at `mac` through `broadcast`, replacing any
/// host of that name. `broadcast_is_address` tells whether `broadcast` parses
/// as an `ip:port` socket address. A MAC address that is not one is rejected
/// first, then a broadcast address that is not one; on rejection the store is
/// left unchanged.
pub fn add_host(
    config: &mut Config,
    name: String,
    mac: String,
    broadcast: String,
    broadcast_is_address: bool,
) -> (r: Result<(), WakeError>)
    requires
        old(config).wf(),
    ensures
        final(config).wf(),
        match r {
            Ok(()) => {
                &&& is_mac(mac@)
                &&& broadcast_is_address
                &&& final(config)@ == old(config)@.insert(name@, HostView { mac: mac@, broadcast: broadcast@ })
            },
            Err(WakeError::MacFormat { mac: m, reason }) => {
                &&& !is_mac(mac@)
                &&& m@ == mac@
                &&& is_mac_error(mac@, reason)
                &&& *final(config) == *old(config)
            },
            Err(WakeError::AddressParse(b)) => {
                &&& is_mac(mac@)
                &&& !broadcast_is_address
                &&& b@ == broadcast@
                &&& *final(config) == *old(config)
            },
            Err(_) => false,
        },
{
    match parse_mac_address(mac.as_str()) {
        Err(reason) => {
            return Err(WakeError::MacFormat { mac, reason });
        },
        Ok(_) => {},
    }
    if !broadcast_is_address {
        return Err(WakeError::AddressParse(broadcast));
    }
    config.insert(name, HostConfig { mac, broadcast });
    Ok(())
}

} // verus!
