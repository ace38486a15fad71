use vstd::prelude::*;

verus! {

// ── Protocol ─────────────────────────────────────────
/// Minecraft 1.21.4
pub const PROTOCOL_VERSION: i32 = 769;

pub const DEFAULT_PORT: u16 = 25565;

// ── Timeouts (milliseconds) ──────────────────────────
pub const DEFAULT_CONNECT_TIMEOUT_MS: u64 = 5000;

/// Reserved for socket read timeouts.
pub const DEFAULT_READ_TIMEOUT_MS: u64 = 5000;

pub const SCAN_CONNECT_TIMEOUT_MS: u64 = 3000;

/// Reserved for socket read timeouts while scanning.
pub const SCAN_READ_TIMEOUT_MS: u64 = 3000;

pub const SCAN_CONCURRENCY: usize = 256;

pub const SCAN_RATE_LIMIT: u32 = 1000;

// ── Protocol Limits ──────────────────────────────────
/// Vanilla server maximum packet size.
pub const MAX_PACKET_SIZE: usize = 2097152;

// ── Mojang API ───────────────────────────────────────
pub const MOJANG_SESSION_API: &'static str = "https://sessionserver.mojang.com";

pub const MOJANG_BLOCKED_SERVERS: &'static str = "https://sessionserver.mojang.com/blockedservers";

/// Max player profiles to look up per status query (avoid hammering Mojang).
pub const MAX_PROFILE_LOOKUPS: usize = 5;

} // verus!
