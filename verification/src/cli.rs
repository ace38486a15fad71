use vstd::prelude::*;

verus! {

/// The parsed command line.
#[derive(Debug)]
pub struct Cli {
    pub command: Command,
    /// Log verbosity: how many times `-v` was given.
    pub verbose: u8,
}

/// The subcommands.
#[derive(Debug)]
pub enum Command {
    /// Query a Minecraft server.
    Status {
        /// Server address (ip, ip:port, or domain).
        address: String,
        /// Connection timeout in milliseconds.
        timeout: u64,
    },
    /// Serve server status over HTTP.
    Serve {
        /// Address to listen on.
        host: String,
        /// Port to listen on.
        port: u16,
    },
    /// Scan an IP range for Minecraft servers.
    Scan {
        /// CIDR range (e.g. 192.168.1.0/24).
        range: String,
        /// Target port.
        port: u16,
        /// Maximum concurrent connections.
        concurrency: usize,
        /// Connection timeout in milliseconds.
        timeout: u64,
        /// Maximum new connections per second.
        rate: u32,
    },
}

/// The log filter for a verbosity: errors only, then this crate's info and
/// debug messages, then everything.
pub open spec fn log_filter_spec(verbose: u8) -> Seq<char> {
    if verbose == 0 {
        "error"@
    } else if verbose == 1 {
        "zerotick=info"@
    } else if verbose == 2 {
        "zerotick=debug"@
    } else {
        "trace"@
    }
}

/// The log filter used when the environment sets none.
pub fn log_filter(verbose: u8) -> (res: &'static str)
    ensures
        res@ == log_filter_spec(verbose),
{
    if verbose == 0 {
        "error"
    } else if verbose == 1 {
        "zerotick=info"
    } else if verbose == 2 {
        "zerotick=debug"
    } else {
        "trace"
    }
}

} // verus!
