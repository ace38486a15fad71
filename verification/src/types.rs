use vstd::prelude::*;

verus! {

/// Complete result of a server status probe.
#[derive(Debug)]
pub struct ServerInfo {
    /// Server address (hostname or IP).
    pub address: String,
    /// Server port.
    pub port: u16,
    pub status: ServerStatus,
    /// Round-trip time of the ping, in nanoseconds; zero when not measured.
    pub latency_nanos: u128,
    pub blocked: Option<bool>,
    /// Whether the address was resolved via an SRV lookup.
    pub srv: bool,
}

// ── SLP JSON Structures ──────────────────────────────

#[derive(Debug)]
pub struct ServerStatus {
    pub version: Version,
    pub players: Players,
    pub description: Description,
    pub favicon: Option<String>,
    pub enforces_secure_chat: Option<bool>,
    pub previews_chat: Option<bool>,
    /// Forge/NeoForge mod data, as JSON text.
    pub forge_data: Option<String>,
    /// Mod list of older Forge servers, as JSON text.
    pub mod_info: Option<String>,
}

#[derive(Debug, Clone)]
pub struct Version {
    pub name: String,
    pub protocol: i32,
}

#[derive(Debug, Clone)]
pub struct Players {
    pub max: i32,
    pub online: i32,
    pub sample: Vec<PlayerSample>,
}

#[derive(Debug, Clone)]
pub struct PlayerSample {
    pub name: String,
    pub id: String,
}

// ── Chat Component (MOTD) ────────────────────────────

/// The `description` field can be a plain string or a chat component tree.
#[derive(Debug)]
pub enum Description {
    Plain(String),
    Component(ChatComponent),
}

#[derive(Debug)]
pub struct ChatComponent {
    pub text: String,
    pub translate: Option<String>,
    pub extra: Vec<ChatComponent>,
    pub color: Option<String>,
    pub bold: Option<bool>,
    pub italic: Option<bool>,
    pub underlined: Option<bool>,
    pub strikethrough: Option<bool>,
    pub obfuscated: Option<bool>,
}

} // verus!
