use crate::error::{Error, Result};
use crate::numbers::{parse_i32, parse_signed};
use crate::protocol::packet::be_u16;
use crate::text::{
    chars_of, hex2_upper, pieces_view, push_hex2_upper, push_str, rsplit_n, rsplitn_chars,
    split_n, splitn_chars, starts_with, string_of,
};
use crate::types::{Description, Players, ServerStatus, Version};
use vstd::prelude::*;

verus! {

// ── UTF-16 ───────────────────────────────────────────

/// The UTF-16 code units of one character.
pub open spec fn char_units(c: char) -> Seq<u16> {
    let v = (c as u32) as int;
    if v < 0x10000 {
        seq![v as u16]
    } else {
        seq![(0xD800 + (v - 0x10000) / 1024) as u16, (0xDC00 + (v - 0x10000) % 1024) as u16]
    }
}

/// The UTF-16 code units of a text, as `str::encode_utf16` gives them.
pub open spec fn utf16_units(s: Seq<char>) -> Seq<u16>
    decreases s.len(),
{
    if s.len() == 0 {
        Seq::<u16>::empty()
    } else {
        utf16_units(s.drop_last()) + char_units(s.last())
    }
}

/// Code units as big-endian byte pairs.
pub open spec fn units_be(u: Seq<u16>) -> Seq<u8>
    decreases u.len(),
{
    if u.len() == 0 {
        Seq::<u8>::empty()
    } else {
        units_be(u.drop_last()) + be_u16(u.last())
    }
}

/// Code units read from big-endian byte pairs; a last odd byte is ignored.
pub open spec fn be_units(b: Seq<u8>) -> Seq<u16> {
    Seq::new(b.len() / 2, |k: int| (b[2 * k] as int * 256 + b[2 * k + 1] as int) as u16)
}

pub open spec fn is_high_surrogate(u: u16) -> bool {
    0xD800 <= u < 0xDC00
}

pub open spec fn is_low_surrogate(u: u16) -> bool {
    0xDC00 <= u < 0xE000
}

/// The character of a surrogate pair.
pub open spec fn pair_scalar(hi: u16, lo: u16) -> int {
    0x10000 + (hi - 0xD800) * 1024 + (lo - 0xDC00)
}

/// UTF-16 decoded as `String::from_utf16_lossy` does: a high surrogate
/// followed by a low one makes one character, any other surrogate becomes
/// U+FFFD, every other unit is its own character.
pub open spec fn utf16_lossy(u: Seq<u16>) -> Seq<char>
    decreases u.len(),
{
    if u.len() == 0 {
        Seq::<char>::empty()
    } else if u.len() >= 2 && is_high_surrogate(u[0]) && is_low_surrogate(u[1]) {
        seq![pair_scalar(u[0], u[1]) as char] + utf16_lossy(u.skip(2))
    } else if is_high_surrogate(u[0]) || is_low_surrogate(u[0]) {
        seq!['\u{fffd}'] + utf16_lossy(u.skip(1))
    } else {
        seq![u[0] as char] + utf16_lossy(u.skip(1))
    }
}

/// The character of a Unicode scalar value (calls `char::from_u32`, which
/// gives `Some` on every scalar value; this claims the character's code is
/// `v`).
#[verifier::external_body]
fn char_of_scalar(v: u32) -> (res: char)
    requires
        v < 0xD800 || (0xE000 <= v && v <= 0x10FFFF),
    ensures
        res as int == v as int,
{
    char::from_u32(v).unwrap()
}

/// The UTF-16 code units of `s`.
pub fn encode_utf16(s: &str) -> (res: Vec<u16>)
    ensures
        res@ == utf16_units(s@),
        res@.len() <= 2 * s@.len(),
{
    let chars = chars_of(s);
    let mut out: Vec<u16> = Vec::new();
    let mut i: usize = 0;
    while i < chars.len()
        invariant
            i <= chars@.len(),
            chars@ == s@,
            out@ == utf16_units(chars@.take(i as int)),
            out@.len() <= 2 * i,
        decreases chars@.len() - i,
    {
        let c = chars[i];
        let v = c as u32;
        proof {
            vstd::utf8::char_is_scalar(c);
        }
        if v < 0x10000 {
            out.push(v as u16);
        } else {
            let w = v - 0x10000;
            assert(w / 1024 < 1024 && w % 1024 < 1024) by (nonlinear_arith)
                requires
                    w < 0x100000,
            ;
            out.push((0xD800 + w / 1024) as u16);
            out.push((0xDC00 + w % 1024) as u16);
        }
        assert(chars@.take(i + 1).drop_last() =~= chars@.take(i as int));
        assert(out@ =~= utf16_units(chars@.take(i + 1)));
        i += 1;
    }
    assert(chars@.take(i as int) =~= chars@);
    out
}

/// Append code units as big-endian byte pairs.
pub fn push_units_be(buf: &mut Vec<u8>, units: &Vec<u16>)
    ensures
        final(buf)@ == old(buf)@ + units_be(units@),
{
    let mut i: usize = 0;
    while i < units.len()
        invariant
            i <= units@.len(),
            buf@ == old(buf)@ + units_be(units@.take(i as int)),
        decreases units@.len() - i,
    {
        let u = units[i];
        buf.push((u >> 8u16) as u8);
        buf.push((u & 0xff) as u8);
        assert(units@.take(i + 1).drop_last() =~= units@.take(i as int));
        assert(buf@ =~= old(buf)@ + units_be(units@.take(i + 1)));
        i += 1;
    }
    assert(units@.take(i as int) =~= units@);
}

/// Code units from big-endian byte pairs.
pub fn units_from_be(raw: &[u8]) -> (res: Vec<u16>)
    ensures
        res@ == be_units(raw@),
{
    let n = raw.len() / 2;
    let mut out: Vec<u16> = Vec::new();
    let mut k: usize = 0;
    while k < n
        invariant
            k <= n,
            n == raw@.len() / 2,
            out@ =~= be_units(raw@).take(k as int),
        decreases n - k,
    {
        assert(2 * k + 1 < raw@.len()) by (nonlinear_arith)
            requires
                k < n,
                n == raw@.len() / 2,
        ;
        assert(2 * k + 1 < raw.len());
        let hi = raw[2 * k] as u16;
        let lo = raw[2 * k + 1] as u16;
        out.push(hi * 256 + lo);
        k += 1;
    }
    assert(be_units(raw@).take(n as int) =~= be_units(raw@));
    out
}

/// Decode UTF-16 code units, replacing unpaired surrogates with U+FFFD.
pub fn decode_utf16_lossy(units: &Vec<u16>) -> (res: String)
    ensures
        res@ == utf16_lossy(units@),
{
    let mut out: Vec<char> = Vec::new();
    let mut i: usize = 0;
    proof {
        assert(units@.skip(0) =~= units@);
    }
    while i < units.len()
        invariant
            i <= units@.len(),
            out@ + utf16_lossy(units@.skip(i as int)) == utf16_lossy(units@),
        decreases units@.len() - i,
    {
        let ghost rest = units@.skip(i as int);
        let ghost before = out@;
        let u = units[i];
        assert(rest[0] == u);
        if i + 1 < units.len() && 0xD800 <= u && u < 0xDC00 && 0xDC00 <= units[i + 1]
            && units[i + 1] < 0xE000 {
            let lo = units[i + 1];
            assert(rest[1] == lo);
            let v: u32 = 0x10000 + (u as u32 - 0xD800) * 1024 + (lo as u32 - 0xDC00);
            let c = char_of_scalar(v);
            out.push(c);
            assert(rest.skip(2) =~= units@.skip(i + 2));
            assert(out@ + utf16_lossy(units@.skip(i + 2)) =~= before + utf16_lossy(rest));
            i += 2;
        } else {
            if 0xD800 <= u && u < 0xE000 {
                out.push('\u{fffd}');
            } else {
                let c = char_of_scalar(u as u32);
                out.push(c);
            }
            assert(rest.skip(1) =~= units@.skip(i + 1));
            assert(out@ + utf16_lossy(units@.skip(i + 1)) =~= before + utf16_lossy(rest));
            i += 1;
        }
    }
    assert(units@.skip(i as int) =~= Seq::<u16>::empty());
    assert(out@ + Seq::<char>::empty() =~= out@);
    string_of(&out)
}

proof fn lemma_units_cons(c: char, rest: Seq<char>)
    ensures
        utf16_units(seq![c] + rest) == char_units(c) + utf16_units(rest),
    decreases rest.len(),
{
    if rest.len() == 0 {
        assert(seq![c] + rest =~= seq![c]);
        assert(seq![c].drop_last() =~= Seq::<char>::empty());
        assert(seq![c].last() == c);
        assert(utf16_units(Seq::<char>::empty()) == Seq::<u16>::empty());
        assert(utf16_units(rest) == Seq::<u16>::empty());
        assert(Seq::<u16>::empty() + char_units(c) =~= char_units(c));
        assert(char_units(c) + Seq::<u16>::empty() =~= char_units(c));
    } else {
        lemma_units_cons(c, rest.drop_last());
        assert((seq![c] + rest).drop_last() =~= seq![c] + rest.drop_last());
        assert((seq![c] + rest).last() == rest.last());
        assert(char_units(c) + utf16_units(rest.drop_last()) + char_units(rest.last()) =~= char_units(
            c,
        ) + utf16_units(rest));
    }
}

proof fn lemma_lossy_char(c: char, u: Seq<u16>)
    ensures
        utf16_lossy(char_units(c) + u) == seq![c] + utf16_lossy(u),
{
    vstd::utf8::char_is_scalar(c);
    vstd::utf8::char_u32_cast(c, c as u32);
    let v = (c as u32) as int;
    let all = char_units(c) + u;
    if v < 0x10000 {
        assert(all[0] == v as u16);
        assert(all.skip(1) =~= u);
        assert((v as u16) as int == v);
    } else {
        let w = v - 0x10000;
        assert(w / 1024 < 1024 && w % 1024 < 1024 && w == (w / 1024) * 1024 + w % 1024)
            by (nonlinear_arith)
            requires
                0 <= w < 0x100000,
        ;
        assert(all[0] == (0xD800 + w / 1024) as u16);
        assert(all[1] == (0xDC00 + w % 1024) as u16);
        assert(all.skip(2) =~= u);
        assert(pair_scalar(all[0], all[1]) == v);
    }
}

/// Text encoded as UTF-16 decodes back to itself.
pub proof fn lemma_utf16_roundtrip(s: Seq<char>)
    ensures
        utf16_lossy(utf16_units(s)) == s,
    decreases s.len(),
{
    if s.len() > 0 {
        let rest = s.skip(1);
        assert(s =~= seq![s[0]] + rest);
        lemma_units_cons(s[0], rest);
        lemma_lossy_char(s[0], utf16_units(rest));
        lemma_utf16_roundtrip(rest);
    }
}

/// Code units written as big-endian byte pairs read back as themselves.
pub proof fn lemma_units_be_roundtrip(u: Seq<u16>)
    ensures
        be_units(units_be(u)) == u,
        units_be(u).len() == 2 * u.len(),
    decreases u.len(),
{
    if u.len() > 0 {
        lemma_units_be_roundtrip(u.drop_last());
        let b = units_be(u);
        let x = u.last();
        assert((((x >> 8u16) as u8) as u16) * 256u16 + (((x & 0xffu16) as u8) as u16) == x)
            by (bit_vector);
        assert(b.len() == 2 * u.len());
        assert forall|k: int| 0 <= k < u.len() implies #[trigger] be_units(b)[k] == u[k] by {
            if k < u.len() - 1 {
                assert(b[2 * k] == units_be(u.drop_last())[2 * k]);
                assert(b[2 * k + 1] == units_be(u.drop_last())[2 * k + 1]);
                assert(be_units(units_be(u.drop_last()))[k] == u.drop_last()[k]);
            } else {
                assert(b[2 * k] == (x >> 8u16) as u8);
                assert(b[2 * k + 1] == (x & 0xffu16) as u8);
            }
        }
        assert(be_units(b) =~= u);
    }
}

/// A host sent in a legacy ping as UTF-16BE reads back, by the decoding used
/// for the reply, as the same text.
pub proof fn lemma_legacy_text_roundtrip(s: Seq<char>)
    ensures
        utf16_lossy(be_units(units_be(utf16_units(s)))) == s,
{
    lemma_units_be_roundtrip(utf16_units(s));
    lemma_utf16_roundtrip(s);
}

// ── Legacy ping ──────────────────────────────────────

/// The bytes of a legacy (1.6) ping for `host` and `port`: `FE 01 FA`, the
/// `MC|PingHost` channel as a length-prefixed UTF-16BE string, the length of
/// the data that follows, protocol `0x4A`, the host as a length-prefixed
/// UTF-16BE string and the port as a 32-bit big-endian number. Lengths are
/// kept to their low 16 bits, as the casts of the wire format do.
pub open spec fn legacy_request_bytes(host: Seq<char>, port: u16) -> Seq<u8> {
    let channel = utf16_units("MC|PingHost"@);
    let h = utf16_units(host);
    seq![0xFEu8, 0x01u8, 0xFAu8] + be_u16((channel.len() % 0x10000) as u16) + units_be(channel)
        + be_u16(((7 + 2 * h.len()) % 0x10000) as u16) + seq![0x4Au8] + be_u16(
        (h.len() % 0x10000) as u16,
    ) + units_be(h) + seq![0u8, 0u8] + be_u16(port)
}

fn push_u16_be(buf: &mut Vec<u8>, v: u16)
    ensures
        final(buf)@ == old(buf)@ + be_u16(v),
{
    buf.push((v >> 8u16) as u8);
    buf.push((v & 0xff) as u8);
    assert(buf@ =~= old(buf)@ + be_u16(v));
}

/// Build the legacy ping request.
pub fn legacy_request(host: &str, port: u16) -> (res: Vec<u8>)
    ensures
        res@ == legacy_request_bytes(host@, port),
{
    let mut buf: Vec<u8> = Vec::new();
    buf.push(0xFE);
    buf.push(0x01);
    buf.push(0xFA);
    let channel = encode_utf16("MC|PingHost");
    push_u16_be(&mut buf, (channel.len() % 0x10000) as u16);
    push_units_be(&mut buf, &channel);
    let h = encode_utf16(host);
    let h_low = h.len() % 0x10000;
    let data_len = 7 + h_low * 2;
    proof {
        let n = h@.len() as int;
        assert((7 + 2 * n) % 0x10000 == (7 + 2 * (n % 0x10000)) % 0x10000) by (nonlinear_arith)
            requires
                n >= 0,
        {
            let q = n / 0x10000;
            let r = n % 0x10000;
            assert(n == q * 0x10000 + r);
            assert(7 + 2 * n == (7 + 2 * r) + (2 * q) * 0x10000);
        }
    }
    push_u16_be(&mut buf, (data_len % 0x10000) as u16);
    buf.push(0x4A);
    push_u16_be(&mut buf, h_low as u16);
    push_units_be(&mut buf, &h);
    buf.push(0);
    buf.push(0);
    push_u16_be(&mut buf, port);
    assert(buf@ =~= legacy_request_bytes(host@, port));
    buf
}

/// The message for a reply whose first byte is not the kick packet `FF`.
pub open spec fn kick_error_message(id: u8) -> Seq<char> {
    "expected legacy kick (0xFF), got 0x"@ + hex2_upper(id)
}

/// Check the first byte of a legacy reply: it must be the kick packet `FF`.
pub fn check_legacy_kick(id: u8) -> (res: Result<()>)
    ensures
        id == 0xFF <==> res is Ok,
        id != 0xFF ==> (res matches Err(Error::Protocol(m)) && m@ == kick_error_message(id)),
{
    if id != 0xFF {
        let mut msg: Vec<char> = Vec::new();
        push_str(&mut msg, "expected legacy kick (0xFF), got 0x");
        push_hex2_upper(&mut msg, id);
        return Err(Error::protocol(string_of(&msg)));
    }
    Ok(())
}

/// Decode the text of a legacy kick packet (UTF-16BE, read lossily).
pub fn decode_legacy_payload(raw: &[u8]) -> (res: String)
    ensures
        res@ == utf16_lossy(be_units(raw@)),
{
    let units = units_from_be(raw);
    decode_utf16_lossy(&units)
}

/// A number field of a legacy reply: its value, or 0 when it does not parse.
pub open spec fn number_or_zero(s: Seq<char>) -> i32 {
    match parse_signed(s, i32::MIN as int, i32::MAX as int) {
        Some(v) => v as i32,
        None => 0,
    }
}

/// A status as a legacy reply gives it: version name and protocol, MOTD as
/// plain text, player counts, and nothing else.
pub open spec fn legacy_status(
    st: ServerStatus,
    name: Seq<char>,
    protocol: i32,
    motd: Seq<char>,
    online: i32,
    max: i32,
) -> bool {
    &&& st.version.name@ == name
    &&& st.version.protocol == protocol
    &&& st.players.max == max
    &&& st.players.online == online
    &&& st.players.sample@.len() == 0
    &&& st.description matches Description::Plain(m) && m@ == motd
    &&& st.favicon is None
    &&& st.enforces_secure_chat is None
    &&& st.previews_chat is None
    &&& st.forge_data is None
    &&& st.mod_info is None
}

/// Whether a legacy reply has the 1.4+ form, starting `§1` and a NUL.
pub open spec fn is_modern_legacy(s: Seq<char>) -> bool {
    starts_with(s, "\u{a7}1\0"@)
}

/// The version name reported for pre-1.4 servers.
pub open spec fn old_version_name() -> Seq<char> {
    "\u{2264}1.3"@
}

fn number_field(field: &Vec<char>) -> (res: i32)
    ensures
        res == number_or_zero(field@),
{
    let s = string_of(field);
    match parse_i32(s.as_str()) {
        Some(v) => v,
        None => 0,
    }
}

fn legacy_status_of(name: String, protocol: i32, motd: String, online: i32, max: i32) -> (res:
    ServerStatus)
    ensures
        legacy_status(res, name@, protocol, motd@, online, max),
{
    ServerStatus {
        version: Version { name, protocol },
        players: Players { max, online, sample: Vec::new() },
        description: Description::Plain(motd),
        favicon: None,
        enforces_secure_chat: None,
        previews_chat: None,
        forge_data: None,
        mod_info: None,
    }
}

/// Parse the text of a legacy kick packet. The 1.4+ form is `§1`, protocol,
/// version, MOTD, online and max players, separated by NULs; the older form
/// is the MOTD, online and max players separated by `§` (the last two `§`
/// split it). Numbers that do not parse count as 0.
pub fn parse_legacy_response(s: &str) -> (res: Result<ServerStatus>)
    ensures
        is_modern_legacy(s@) ==> ({
            let parts = split_n(s@, 6, '\0');
            &&& parts.len() >= 6 <==> res is Ok
            &&& res matches Ok(st) ==> legacy_status(
                st,
                parts[2],
                number_or_zero(parts[1]),
                parts[3],
                number_or_zero(parts[4]),
                number_or_zero(parts[5]),
            )
            &&& res matches Err(e) ==> (e matches Error::Protocol(m) && m@
                == "incomplete legacy response"@)
        }),
        !is_modern_legacy(s@) ==> ({
            let parts = rsplit_n(s@, 3, '\u{a7}');
            &&& parts.len() >= 3 <==> res is Ok
            &&& res matches Ok(st) ==> legacy_status(
                st,
                old_version_name(),
                0,
                parts[2],
                number_or_zero(parts[1]),
                number_or_zero(parts[0]),
            )
            &&& res matches Err(e) ==> (e matches Error::Protocol(m) && m@
                == "incomplete old legacy response"@)
        }),
{
    let chars = chars_of(s);
    proof {
        reveal_strlit("\u{a7}1\0");
    }
    let modern = chars.len() >= 3 && chars[0] == '\u{a7}' && chars[1] == '1' && chars[2] == '\0';
    assert(modern == is_modern_legacy(s@)) by {
        if chars@.len() >= 3 {
            if modern {
                assert(chars@.take(3) =~= "\u{a7}1\0"@);
            } else if is_modern_legacy(s@) {
                assert(chars@.take(3)[0] == chars@[0]);
                assert(chars@.take(3)[1] == chars@[1]);
                assert(chars@.take(3)[2] == chars@[2]);
            }
        }
    }
    if modern {
        let parts = splitn_chars(&chars, 6, '\0');
        proof {
            assert(pieces_view(parts@).len() == parts@.len());
        }
        if parts.len() < 6 {
            let msg = chars_of("incomplete legacy response");
            return Err(Error::protocol(string_of(&msg)));
        }
        proof {
            assert(forall|k: int| 0 <= k < parts@.len() ==> #[trigger] pieces_view(parts@)[k]
                == parts@[k]@);
        }
        let protocol = number_field(&parts[1]);
        let online = number_field(&parts[4]);
        let max = number_field(&parts[5]);
        let name = string_of(&parts[2]);
        let motd = string_of(&parts[3]);
        Ok(legacy_status_of(name, protocol, motd, online, max))
    } else {
        let parts = rsplitn_chars(&chars, 3, '\u{a7}');
        proof {
            assert(pieces_view(parts@).len() == parts@.len());
        }
        if parts.len() < 3 {
            let msg = chars_of("incomplete old legacy response");
            return Err(Error::protocol(string_of(&msg)));
        }
        proof {
            assert(forall|k: int| 0 <= k < parts@.len() ==> #[trigger] pieces_view(parts@)[k]
                == parts@[k]@);
        }
        let max = number_field(&parts[0]);
        let online = number_field(&parts[1]);
        let motd = string_of(&parts[2]);
        let name = chars_of("\u{2264}1.3");
        Ok(legacy_status_of(string_of(&name), 0, motd, online, max))
    }
}

/// A 1.4+ legacy reply made of `§1`, then protocol, version, MOTD, online
/// and max player fields separated by NULs (the first four holding no NUL)
/// is read back field by field.
pub proof fn lemma_modern_reply_fields(
    p: Seq<char>,
    v: Seq<char>,
    m: Seq<char>,
    o: Seq<char>,
    x: Seq<char>,
)
    requires
        forall|k: int| 0 <= k < p.len() ==> #[trigger] p[k] != '\0',
        forall|k: int| 0 <= k < v.len() ==> #[trigger] v[k] != '\0',
        forall|k: int| 0 <= k < m.len() ==> #[trigger] m[k] != '\0',
        forall|k: int| 0 <= k < o.len() ==> #[trigger] o[k] != '\0',
    ensures
        ({
            let s = seq!['\u{a7}', '1', '\0'] + p + seq!['\0'] + v + seq!['\0'] + m + seq!['\0']
                + o + seq!['\0'] + x;
            &&& is_modern_legacy(s)
            &&& split_n(s, 6, '\0') == seq![seq!['\u{a7}', '1'], p, v, m, o, x]
        }),
{
    reveal_strlit("\u{a7}1\0");
    let head = seq!['\u{a7}', '1'];
    let s = seq!['\u{a7}', '1', '\0'] + p + seq!['\0'] + v + seq!['\0'] + m + seq!['\0'] + o + seq![
        '\0',
    ] + x;
    assert(s.take(3) =~= "\u{a7}1\0"@);
    let r4 = o + seq!['\0'] + x;
    let r3 = m + seq!['\0'] + r4;
    let r2 = v + seq!['\0'] + r3;
    let r1 = p + seq!['\0'] + r2;
    assert(s =~= head + seq!['\0'] + r1);
    crate::text::lemma_split_n_cons(head, r1, 6, '\0');
    crate::text::lemma_split_n_cons(p, r2, 5, '\0');
    crate::text::lemma_split_n_cons(v, r3, 4, '\0');
    crate::text::lemma_split_n_cons(m, r4, 3, '\0');
    crate::text::lemma_split_n_cons(o, x, 2, '\0');
    assert(split_n(s, 6, '\0') =~= seq![head, p, v, m, o, x]);
}

/// A pre-1.4 legacy reply made of the MOTD, online and max player counts
/// separated by `§` (the counts holding no `§`) is read back field by field.
pub proof fn lemma_old_reply_fields(m: Seq<char>, o: Seq<char>, x: Seq<char>)
    requires
        forall|k: int| 0 <= k < o.len() ==> #[trigger] o[k] != '\u{a7}',
        forall|k: int| 0 <= k < x.len() ==> #[trigger] x[k] != '\u{a7}',
    ensures
        rsplit_n(m + seq!['\u{a7}'] + o + seq!['\u{a7}'] + x, 3, '\u{a7}') == seq![x, o, m],
{
    let s = m + seq!['\u{a7}'] + o + seq!['\u{a7}'] + x;
    let left = m + seq!['\u{a7}'] + o;
    crate::text::lemma_rsplit_n_cons(left, x, 3, '\u{a7}');
    crate::text::lemma_rsplit_n_cons(m, o, 2, '\u{a7}');
    assert(rsplit_n(m, 1, '\u{a7}') == seq![m]);
    assert(rsplit_n(s, 3, '\u{a7}') =~= seq![x, o, m]);
}

} // verus!
