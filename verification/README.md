# zerotick

Minecraft server reconnaissance: Server List Ping (modern and legacy), SRV
resolution, Mojang blocklist and profile lookups, CIDR range scanning, an
mcstatus.io-style HTTP API, and styled terminal output.

The library under `src/` is written in Verus: each function states what it
computes in its `requires`/`ensures`, and Verus proves it.

- `protocol/` — VarInt coding, packets and their reader, the modern and legacy
  status pings as bytes built and read.
- `net/` — address parsing, SRV queries and answers, URLs, HTTP responses and
  chunked bodies.
- `mojang/` — blocklist candidates and matching, profile URLs and textures.
- `scanner/` — IPv4 and CIDR parsing, probe results.
- `style/` — colors, the MOTD renderer, tables and trees, and the text they
  show once the escape sequences are stripped.
- `commands/` — what the `status`, `scan` and `serve` commands compute: the
  status tree, the scan table, the HTTP API's responses, HTML MOTDs, and the
  rate-limit and cache decisions.
- `text.rs`, `numbers.rs` — text and number helpers with their specifications.

Calls into other crates (`colored`, `sha1`, `base64`, `rand`) and a few `std`
conversions sit behind small wrappers whose contracts are trusted.

`app/` is the program: command line, sockets, TLS, DNS over UDP, the HTTP
server, JSON, and the loops that feed the library's functions.
