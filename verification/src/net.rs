//! Hosts, ports, and what can go wrong when connecting to them.

use vstd::prelude::*;

use crate::ip::{parse_sock, write_addr, SockAddr};
use crate::text::{chars_of, decimal_chars, find_char, put, string_of};

verus! {

/// Why a connect attempt produced no bearer.
#[derive(Clone, Debug)]
pub enum ConnectError {
    Connect(String),
    Timeout,
}

impl ConnectError {
    /// The error in words.
    pub open spec fn words(self) -> Seq<char> {
        match self {
            ConnectError::Connect(m) => m@,
            ConnectError::Timeout => "timeout"@,
        }
    }

    pub fn text(&self) -> (s: String)
        ensures
            s@ == self.words(),
    {
        match self {
            ConnectError::Connect(m) => m.clone(),
            ConnectError::Timeout => "timeout".to_owned(),
        }
    }
}

/// `host:port`, an IPv6 literal in brackets.
pub open spec fn host_port(host: Seq<char>, port: u16) -> Seq<char> {
    let tail = seq![':'] + crate::text::decimal(port as nat);
    if host.len() > 0 && host[0] == '[' {
        host + tail
    } else if host.contains(':') {
        seq!['['] + host + seq![']'] + tail
    } else {
        host + tail
    }
}

/// host:port for display and keys, bracketing IPv6 literals.
pub fn format_host_port(host: &str, port: u16) -> (s: String)
    ensures
        s@ == host_port(host@, port),
{
    let h = chars_of(host);
    let digits = decimal_chars(port as u64);
    let k: usize = find_char(h.as_slice(), ':');
    proof {
        crate::text::lemma_first_at(host@, ':');
    }
    let bracket = !(h.len() > 0 && h[0] == '[') && k < h.len();
    let mut v: Vec<char> = Vec::new();
    if bracket {
        v.push('[');
    }
    v.extend_from_slice(h.as_slice());
    if bracket {
        v.push(']');
    }
    v.push(':');
    v.extend_from_slice(digits.as_slice());
    assert(v@ =~= host_port(host@, port));
    string_of(v.as_slice())
}

/// The socket address that `addr` spells. Names are resolved before probing,
/// one endpoint per address, so there is nothing to look up here.
pub fn connect_target(addr: &str) -> (r: Result<SockAddr, ConnectError>)
    ensures
        match crate::ip::sock_of(addr@) {
            Some(s) => r == Ok::<SockAddr, ConnectError>(s),
            None => r matches Err(ConnectError::Connect(m)) && m@ == "Invalid address: "@ + addr@,
        },
{
    match parse_sock(chars_of(addr).as_slice()) {
        Some(s) => Ok(s),
        None => {
            let mut m = "Invalid address: ".to_owned();
            put(&mut m, addr);
            Err(ConnectError::Connect(m))
        },
    }
}

/// The error of a connect attempt to `sock` that the socket refused with `cause`.
pub fn connect_failed(sock: SockAddr, cause: &str) -> (r: ConnectError)
    ensures
        r matches ConnectError::Connect(m) && m@ == "Connect error to "@ + crate::ip::addr_text(
            sock,
        ) + ": "@ + cause@,
{
    let mut m = "Connect error to ".to_owned();
    put(&mut m, string_of(write_addr(sock).as_slice()).as_str());
    put(&mut m, ": ");
    put(&mut m, cause);
    ConnectError::Connect(m)
}

} // verus!
