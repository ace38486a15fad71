use crate::net::https::{lowercase, to_lowercase};
use crate::text::{
    chars_of, dec, decimal_u128, find_char, find_char_from, lemma_find_char_bound, pieces_view,
    push_chars, push_str, split_all, split_chars, split_lines, string_of, sub_chars, text_lines,
    trim_text, trim_ws,
};
use vstd::prelude::*;
use vstd::string::StringSliceAdditionalSpecFns;

verus! {

// ── Hashing ──────────────────────────────────────────

/// The SHA-1 digest of `data`.
pub uninterp spec fn sha1(data: Seq<u8>) -> Seq<u8>;

/// Calls `sha1::Sha1::digest`. Claims: the digest is a function of the data
/// and is twenty bytes long.
#[verifier::external_body]
fn sha1_digest(data: &[u8]) -> (res: Vec<u8>)
    ensures
        res@ == sha1(data@),
        res@.len() == 20,
{
    <sha1::Sha1 as sha1::Digest>::digest(data).to_vec()
}

/// The lowercase hexadecimal digit of `d` (below sixteen).
pub open spec fn hex_digit_lower(d: nat) -> char {
    if d < 10 {
        (48 + d) as char
    } else {
        (87 + d) as char
    }
}

/// Bytes as lowercase hexadecimal, two digits each, as `{:02x}` writes them.
pub open spec fn hex_lower(b: Seq<u8>) -> Seq<char>
    decreases b.len(),
{
    if b.len() == 0 {
        Seq::<char>::empty()
    } else {
        hex_lower(b.drop_last()) + seq![
            hex_digit_lower((b.last() / 16) as nat),
            hex_digit_lower((b.last() % 16) as nat),
        ]
    }
}

fn hex_digit_lower_of(d: u8) -> (res: char)
    requires
        d < 16,
    ensures
        res == hex_digit_lower(d as nat),
{
    if d < 10 {
        (48u8 + d) as char
    } else {
        (87u8 + d) as char
    }
}

/// Encode bytes as lowercase hexadecimal.
pub fn hex_encode(bytes: &[u8]) -> (res: String)
    ensures
        res@ == hex_lower(bytes@),
{
    let mut out: Vec<char> = Vec::new();
    let mut i: usize = 0;
    while i < bytes.len()
        invariant
            i <= bytes@.len(),
            out@ == hex_lower(bytes@.take(i as int)),
        decreases bytes@.len() - i,
    {
        let b = bytes[i];
        out.push(hex_digit_lower_of(b / 16));
        out.push(hex_digit_lower_of(b % 16));
        assert(bytes@.take(i + 1).drop_last() =~= bytes@.take(i as int));
        assert(out@ =~= hex_lower(bytes@.take(i + 1)));
        i += 1;
    }
    assert(bytes@.take(i as int) =~= bytes@);
    string_of(&out)
}

/// Hex text has two digits per byte, each a lowercase hexadecimal digit.
pub proof fn lemma_hex_lower_shape(b: Seq<u8>)
    ensures
        hex_lower(b).len() == 2 * b.len(),
        forall|k: int|
            0 <= k < hex_lower(b).len() ==> {
                let c = #[trigger] hex_lower(b)[k];
                ('0' <= c && c <= '9') || ('a' <= c && c <= 'f')
            },
    decreases b.len(),
{
    if b.len() > 0 {
        lemma_hex_lower_shape(b.drop_last());
        let h = hex_lower(b.drop_last());
        assert forall|k: int| 0 <= k < hex_lower(b).len() implies {
            let c = #[trigger] hex_lower(b)[k];
            ('0' <= c && c <= '9') || ('a' <= c && c <= 'f')
        } by {
            if k < h.len() {
                assert(hex_lower(b)[k] == h[k]);
            }
        }
    }
}

/// The hash Mojang lists for an address: SHA-1 of its UTF-8 bytes, in hex.
pub open spec fn address_hash(s: Seq<char>) -> Seq<char> {
    hex_lower(sha1(vstd::utf8::encode_utf8(s)))
}

/// SHA-1 of a string, as lowercase hexadecimal.
pub fn sha1_hex(input: &str) -> (res: String)
    ensures
        res@ == address_hash(input@),
        res@.len() == 40,
{
    let digest = sha1_digest(input.as_bytes());
    proof {
        lemma_hex_lower_shape(digest@);
    }
    hex_encode(digest.as_slice())
}

// ── Candidates ───────────────────────────────────────

/// The part of a host a wildcard pattern covers: the host after its first
/// label, when it has three or more labels.
pub open spec fn wildcard_suffix(host: Seq<char>) -> Option<Seq<char>> {
    if split_all(host, '.').len() > 2 {
        match find_char(host, '.') {
            Some(i) => Some(host.skip(i + 1)),
            None => None,
        }
    } else {
        None
    }
}

/// The variants given the host lowercased and the wildcard suffix
/// lowercased: the host, the host with its port, and `*.` with the suffix
/// (nothing when there is no suffix).
pub open spec fn candidate_set_spec(
    lower_host: Seq<char>,
    port: u16,
    lower_suffix: Option<Seq<char>>,
) -> Seq<Seq<char>> {
    seq![
        lower_host,
        lower_host + seq![':'] + dec(port as nat),
        match lower_suffix {
            Some(s) => "*."@ + s,
            None => Seq::<char>::empty(),
        },
    ]
}

/// The address variants Mojang's list is checked for: the host lowercased,
/// the host lowercased with its port, and the wildcard pattern.
pub open spec fn candidates_spec(host: Seq<char>, port: u16) -> Seq<Seq<char>> {
    candidate_set_spec(
        lowercase(host),
        port,
        match wildcard_suffix(host) {
            Some(s) => Some(lowercase(s)),
            None => None,
        },
    )
}

/// The host after its first label, for hosts of three or more labels.
pub fn wildcard_suffix_of(host: &str) -> (res: Option<String>)
    ensures
        match wildcard_suffix(host@) {
            Some(s) => res matches Some(r) && r@ == s,
            None => res is None,
        },
{
    let chars = chars_of(host);
    let n = chars.len();
    let parts = split_chars(&chars, '.');
    proof {
        assert(pieces_view(parts@).len() == parts@.len());
        lemma_find_char_bound(chars@, '.');
        assert(chars@.skip(0) =~= chars@);
    }
    if parts.len() > 2 {
        match find_char_from(&chars, '.', 0) {
            Some(i) => {
                let rest = sub_chars(&chars, i + 1, n);
                assert(rest@ =~= chars@.skip(i + 1));
                Some(string_of(&rest))
            },
            None => None,
        }
    } else {
        None
    }
}

/// The address variants, from the host and the wildcard suffix already
/// lowercased.
pub fn candidate_set(lower_host: &str, port: u16, lower_suffix: Option<&str>) -> (res: Vec<String>)
    ensures
        res@.map_values(|c: String| c@) == candidate_set_spec(
            lower_host@,
            port,
            match lower_suffix {
                Some(s) => Some(s@),
                None => None,
            },
        ),
{
    let host_chars = chars_of(lower_host);
    let mut with_port = chars_of(lower_host);
    push_str(&mut with_port, ":");
    let digits = decimal_u128(port as u128);
    push_chars(&mut with_port, &digits);
    let wildcard: Vec<char> = match lower_suffix {
        Some(s) => {
            let mut w = chars_of("*.");
            push_str(&mut w, s);
            w
        },
        None => Vec::new(),
    };
    let mut res: Vec<String> = Vec::new();
    res.push(string_of(&host_chars));
    res.push(string_of(&with_port));
    res.push(string_of(&wildcard));
    proof {
        reveal_strlit(":");
        assert(with_port@ =~= lower_host@ + seq![':'] + dec(port as nat));
        assert(res@.map_values(|c: String| c@) =~= candidate_set_spec(
            lower_host@,
            port,
            match lower_suffix {
                Some(s) => Some(s@),
                None => None,
            },
        ));
    }
    res
}

/// The address variants to look up.
pub fn candidates(host: &str, port: u16) -> (res: Vec<String>)
    ensures
        res@.map_values(|c: String| c@) == candidates_spec(host@, port),
{
    let lower = to_lowercase(host);
    match wildcard_suffix_of(host) {
        Some(suffix) => {
            let lowered = to_lowercase(suffix.as_str());
            candidate_set(lower.as_str(), port, Some(lowered.as_str()))
        },
        None => candidate_set(lower.as_str(), port, None),
    }
}

// ── Matching ─────────────────────────────────────────

/// Whether `hash` is one of the entries of a blocklist body: its lines,
/// trimmed, with empty lines left out.
pub open spec fn listed(body: Seq<char>, hash: Seq<char>) -> bool {
    hash.len() > 0 && exists|i: int|
        0 <= i < text_lines(body).len() && trim_ws(#[trigger] text_lines(body)[i]) == hash
}

/// Whether a server is blocked by the list: one of its non-empty candidates
/// has its hash listed.
pub open spec fn blocked_by(body: Seq<char>, host: Seq<char>, port: u16) -> bool {
    exists|k: int|
        0 <= k < 3 && (#[trigger] candidates_spec(host, port)[k]).len() > 0 && listed(
            body,
            address_hash(candidates_spec(host, port)[k]),
        )
}

fn is_listed(lines: &Vec<String>, hash: &Vec<char>) -> (res: bool)
    requires
        hash@.len() > 0,
    ensures
        res == exists|i: int|
            0 <= i < lines@.len() && trim_ws(#[trigger] lines@[i]@) == hash@,
{
    let mut i: usize = 0;
    while i < lines.len()
        invariant
            i <= lines@.len(),
            forall|j: int| 0 <= j < i ==> trim_ws(#[trigger] lines@[j]@) != hash@,
        decreases lines@.len() - i,
    {
        let t = trim_text(lines[i].as_str());
        if crate::text::chars_eq(&t, hash) {
            return true;
        }
        i += 1;
    }
    false
}

/// Whether the blocklist `body` lists `hash`.
pub fn hash_listed(body: &str, hash: &str) -> (res: bool)
    ensures
        res == listed(body@, hash@),
{
    let hc = chars_of(hash);
    if hc.len() == 0 {
        return false;
    }
    let lines = split_lines(body);
    proof {
        assert(lines@.len() == text_lines(body@).len()) by {
            assert(lines@.map_values(|l: String| l@).len() == lines@.len());
        }
        assert forall|i: int| 0 <= i < lines@.len() implies #[trigger] lines@[i]@ == text_lines(
            body@,
        )[i] by {
            assert(lines@.map_values(|l: String| l@)[i] == lines@[i]@);
        }
    }
    let found = is_listed(&lines, &hc);
    proof {
        if found {
            let i = choose|i: int| 0 <= i < lines@.len() && trim_ws(#[trigger] lines@[i]@) == hc@;
            assert(trim_ws(text_lines(body@)[i]) == hc@);
        } else {
            assert forall|i: int| 0 <= i < text_lines(body@).len() implies trim_ws(
                #[trigger] text_lines(body@)[i],
            ) != hc@ by {
                assert(lines@[i]@ == text_lines(body@)[i]);
            }
        }
    }
    found
}

/// Whether Mojang's blocklist `body` lists the server at `host` and `port`.
pub fn blocked_in_list(body: &str, host: &str, port: u16) -> (res: bool)
    ensures
        res == blocked_by(body@, host@, port),
{
    let cands = candidates(host, port);
    proof {
        assert(cands@.len() == 3) by {
            assert(cands@.map_values(|c: String| c@).len() == cands@.len());
        }
        assert forall|k: int| 0 <= k < 3 implies #[trigger] cands@[k]@ == candidates_spec(
            host@,
            port,
        )[k] by {
            assert(cands@.map_values(|c: String| c@)[k] == cands@[k]@);
        }
    }
    let mut k: usize = 0;
    while k < 3
        invariant
            k <= 3,
            cands@.len() == 3,
            forall|j: int| 0 <= j < 3 ==> #[trigger] cands@[j]@ == candidates_spec(host@, port)[j],
            forall|j: int|
                0 <= j < k ==> !((#[trigger] candidates_spec(host@, port)[j]).len() > 0 && listed(
                    body@,
                    address_hash(candidates_spec(host@, port)[j]),
                )),
        decreases 3 - k,
    {
        let c = &cands[k];
        let cc = chars_of(c.as_str());
        if cc.len() > 0 {
            let hash = sha1_hex(c.as_str());
            if hash_listed(body, hash.as_str()) {
                assert(candidates_spec(host@, port)[k as int] == c@);
                return true;
            }
        }
        k += 1;
    }
    false
}

} // verus!
