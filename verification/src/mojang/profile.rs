use crate::config::MOJANG_SESSION_API;
use crate::text::{chars_of, is_lit, push_str, string_of};
use vstd::string::StringSliceAdditionalSpecFns;
use vstd::prelude::*;

verus! {

/// A resolved player profile with optional skin/cape URLs.
#[derive(Debug, Clone)]
pub struct PlayerProfile {
    /// Player's username.
    pub name: String,
    /// Player's UUID (de-hyphenated).
    pub uuid: String,
    pub skin_url: Option<String>,
    pub cape_url: Option<String>,
}

/// The characters of `s` other than `-`, in order.
pub open spec fn without_dashes(s: Seq<char>) -> Seq<char> {
    s.filter(|c: char| c != '-')
}

/// The characters other than `-`, in order.
pub fn strip_dashes(s: &str) -> (res: Vec<char>)
    ensures
        res@ == without_dashes(s@),
{
    let chars = chars_of(s);
    let mut out: Vec<char> = Vec::new();
    let mut i: usize = 0;
    while i < chars.len()
        invariant
            i <= chars@.len(),
            chars@ == s@,
            out@ == without_dashes(chars@.take(i as int)),
        decreases chars@.len() - i,
    {
        let c = chars[i];
        proof {
            assert(chars@.take(i + 1).drop_last() =~= chars@.take(i as int));
            reveal_with_fuel(Seq::filter, 1);
        }
        if c != '-' {
            out.push(c);
        }
        i += 1;
    }
    proof {
        assert(chars@.take(chars@.len() as int) =~= chars@);
    }
    out
}

/// The session-server URL of a player's profile.
pub open spec fn profile_url_spec(uuid: Seq<char>) -> Seq<char> {
    MOJANG_SESSION_API@ + "/session/minecraft/profile/"@ + without_dashes(uuid)
}

/// The URL `fetch` asks for a player's profile.
pub fn profile_url(uuid: &str) -> (res: String)
    ensures
        res@ == profile_url_spec(uuid@),
{
    let mut out = chars_of(MOJANG_SESSION_API);
    push_str(&mut out, "/session/minecraft/profile/");
    let clean = strip_dashes(uuid);
    crate::text::push_chars(&mut out, &clean);
    string_of(&out)
}


/// A property of a session profile, as the session server lists it.
#[derive(Debug, Clone)]
pub struct ProfileProperty {
    pub name: String,
    pub value: String,
}

/// What standard base64 (with padding) decodes `text` to, if it is valid.
pub uninterp spec fn base64_decoded(text: Seq<u8>) -> Option<Seq<u8>>;

/// Calls `base64::engine::general_purpose::STANDARD.decode`. Claims only
/// that the outcome is a function of the text's bytes.
#[verifier::external_body]
fn base64_decode(text: &str) -> (res: Option<Vec<u8>>)
    ensures
        match base64_decoded(text.spec_bytes()) {
            Some(b) => res matches Some(v) && v@ == b,
            None => res is None,
        },
{
    base64::Engine::decode(&base64::engine::general_purpose::STANDARD, text).ok()
}

/// The decoded payloads of the `textures` properties, in order; a property
/// whose value is not valid base64 gives none.
pub open spec fn texture_payloads(ps: Seq<ProfileProperty>) -> Seq<Seq<u8>>
    decreases ps.len(),
{
    if ps.len() == 0 {
        Seq::<Seq<u8>>::empty()
    } else {
        let rest = texture_payloads(ps.drop_last());
        let p = ps.last();
        if p.name@ == "textures"@ {
            match base64_decoded(vstd::utf8::encode_utf8(p.value@)) {
                Some(b) => rest.push(b),
                None => rest,
            }
        } else {
            rest
        }
    }
}

/// Decode the `textures` properties of a profile.
pub fn decode_texture_properties(properties: &Vec<ProfileProperty>) -> (res: Vec<Vec<u8>>)
    ensures
        res@.map_values(|b: Vec<u8>| b@) == texture_payloads(properties@),
{
    let mut out: Vec<Vec<u8>> = Vec::new();
    let mut i: usize = 0;
    while i < properties.len()
        invariant
            i <= properties@.len(),
            out@.map_values(|b: Vec<u8>| b@) == texture_payloads(properties@.take(i as int)),
        decreases properties@.len() - i,
    {
        let p = &properties[i];
        let ghost before = out@;
        assert(properties@.take(i + 1).drop_last() =~= properties@.take(i as int));
        assert(properties@.take(i + 1).last() == *p);
        let name = chars_of(p.name.as_str());
        if is_lit(&name, "textures") {
            match base64_decode(p.value.as_str()) {
                Some(bytes) => {
                    out.push(bytes);
                    assert(out@.map_values(|b: Vec<u8>| b@) =~= before.map_values(
                        |b: Vec<u8>| b@,
                    ).push(bytes@));
                },
                None => {},
            }
        }
        i += 1;
    }
    assert(properties@.take(i as int) =~= properties@);
    out
}

/// The skin and cape URLs of a parsed textures payload.
pub type TextureUrls = (Option<String>, Option<String>);

/// The URLs the last payload that parsed gives; none when no payload parsed.
pub open spec fn last_textures(parsed: Seq<Option<TextureUrls>>) -> TextureUrls
    decreases parsed.len(),
{
    if parsed.len() == 0 {
        (None, None)
    } else {
        match parsed.last() {
            Some(t) => t,
            None => last_textures(parsed.drop_last()),
        }
    }
}

/// Pick the URLs of the last payload that parsed.
pub fn select_textures(parsed: Vec<Option<TextureUrls>>) -> (res: TextureUrls)
    ensures
        res == last_textures(parsed@),
{
    let mut v = parsed;
    while v.len() > 0
        invariant
            last_textures(v@) == last_textures(parsed@),
        decreases v@.len(),
    {
        let ghost before = v@;
        match v.pop() {
            Some(Some(t)) => {
                return t;
            },
            _ => {
                assert(v@ =~= before.drop_last());
            },
        }
    }
    (None, None)
}

/// The profile a session-server answer gives.
pub fn profile_from(name: String, id: String, urls: TextureUrls) -> (res: PlayerProfile)
    ensures
        res.name == name,
        res.uuid == id,
        res.skin_url == urls.0,
        res.cape_url == urls.1,
{
    PlayerProfile { name, uuid: id, skin_url: urls.0, cape_url: urls.1 }
}

} // verus!
