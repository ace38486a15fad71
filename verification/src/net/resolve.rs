use crate::config::DEFAULT_PORT;
use crate::error::{Error, Result};
use crate::numbers::{parse_u16, parse_unsigned};
use crate::text::{
    append_bytes, chars_of, count_char, count_chars, find_byte, find_byte_in, find_char,
    find_char_from, lemma_find_byte_bound, lemma_find_char_bound, push_chars, push_str,
    rfind_char, rfind_char_before, str_from_utf8, string_of, sub_chars, trim_end_char,
    trim_end_chars, trim_text, trim_ws,
};
use vstd::prelude::*;
use vstd::slice::slice_subrange;
use vstd::string::StringSliceAdditionalSpecFns;
use vstd::utf8::{
    char_is_scalar, char_u32_cast, decode_utf8, encode_scalar, encode_utf8, encode_utf8_decode_utf8,
    encode_utf8_valid_utf8, has_width_1_encoding, leading_byte_width_1, valid_utf8,
};

verus! {

/// Resolved server address.
#[derive(Debug, Clone)]
pub struct ServerAddress {
    pub host: String,
    pub port: u16,
    pub srv: bool,
}

// ── Host and port ────────────────────────────────────

/// How an address splits into host and port text: `[host]:port` for
/// bracketed hosts; otherwise at the colon when there is exactly one; else
/// no split.
pub open spec fn host_port_split(s: Seq<char>) -> Option<(Seq<char>, Seq<char>)> {
    if s.len() > 0 && s[0] == '[' {
        match find_char(s, ']') {
            Some(end) => {
                let rest = s.skip(end + 1);
                if rest.len() > 0 && rest[0] == ':' {
                    Some((s.subrange(1, end), rest.skip(1)))
                } else {
                    None
                }
            },
            None => None,
        }
    } else if count_char(s, ':') == 1 {
        match rfind_char(s, ':') {
            Some(idx) => Some((s.take(idx), s.skip(idx + 1))),
            None => None,
        }
    } else {
        None
    }
}

/// Split an address into host and port text, if it names a port.
pub fn split_host_port(input: &str) -> (res: Option<(String, String)>)
    ensures
        match host_port_split(input@) {
            Some((h, p)) => res matches Some((rh, rp)) && rh@ == h && rp@ == p,
            None => res is None,
        },
{
    let s = chars_of(input);
    proof {
        lemma_find_char_bound(s@, ']');
    }
    if s.len() > 0 && s[0] == '[' {
        proof {
            assert(s@.skip(0) =~= s@);
        }
        match find_char_from(&s, ']', 0) {
            Some(end) => {
                if end + 1 < s.len() && s[end + 1] == ':' {
                    let host = sub_chars(&s, 1, end);
                    let port = sub_chars(&s, end + 2, s.len());
                    proof {
                        assert(port@ =~= s@.skip(end + 1).skip(1));
                    }
                    return Some((string_of(&host), string_of(&port)));
                }
                proof {
                    if end + 1 < s@.len() {
                        assert(s@.skip(end + 1)[0] == s@[end + 1]);
                    }
                }
                return None;
            },
            None => {
                return None;
            },
        }
    }
    if count_chars(&s, ':') == 1 {
        proof {
            crate::text::lemma_rfind_char_bound(s@, ':');
            assert(s@.take(s@.len() as int) =~= s@);
        }
        match rfind_char_before(&s, ':', s.len()) {
            Some(idx) => {
                let host = sub_chars(&s, 0, idx);
                let port = sub_chars(&s, idx + 1, s.len());
                proof {
                    assert(host@ =~= s@.take(idx as int));
                    assert(port@ =~= s@.skip(idx + 1));
                }
                return Some((string_of(&host), string_of(&port)));
            },
            None => {
                return None;
            },
        }
    }
    None
}

proof fn lemma_count_concat(a: Seq<char>, b: Seq<char>, c: char)
    ensures
        count_char(a + b, c) == count_char(a, c) + count_char(b, c),
    decreases b.len(),
{
    if b.len() == 0 {
        assert(a + b =~= a);
    } else {
        lemma_count_concat(a, b.drop_last(), c);
        assert((a + b).drop_last() =~= a + b.drop_last());
        assert((a + b).last() == b.last());
    }
}

proof fn lemma_count_absent(a: Seq<char>, c: char)
    requires
        forall|k: int| 0 <= k < a.len() ==> #[trigger] a[k] != c,
    ensures
        count_char(a, c) == 0,
    decreases a.len(),
{
    if a.len() > 0 {
        assert(a.last() == a[a.len() - 1]);
        lemma_count_absent(a.drop_last(), c);
    }
}

/// An address written as host, colon and port, with neither part holding a
/// colon and the host not starting with `[`, splits back into them.
pub proof fn lemma_host_port_roundtrip(h: Seq<char>, p: Seq<char>)
    requires
        !(h.len() > 0 && h[0] == '['),
        forall|k: int| 0 <= k < h.len() ==> #[trigger] h[k] != ':',
        forall|k: int| 0 <= k < p.len() ==> #[trigger] p[k] != ':',
    ensures
        host_port_split(h + seq![':'] + p) == Some((h, p)),
{
    let s = h + seq![':'] + p;
    assert(s[0] != '[') by {
        if h.len() > 0 {
            assert(s[0] == h[0]);
        } else {
            assert(s[0] == ':');
        }
    }
    lemma_count_concat(h + seq![':'], p, ':');
    lemma_count_concat(h, seq![':'], ':');
    lemma_count_absent(h, ':');
    lemma_count_absent(p, ':');
    assert(seq![':'].drop_last() =~= Seq::<char>::empty());
    assert(seq![':'].last() == ':');
    assert(count_char(Seq::<char>::empty(), ':') == 0);
    assert(count_char(seq![':'], ':') == 1);
    assert forall|j: int| h.len() < j < s.len() implies s[j] != ':' by {
        assert(s[j] == p[j - h.len() - 1]);
    }
    crate::text::lemma_rfind_char_at(s, ':', h.len() as int);
    assert(s.take(h.len() as int) =~= h);
    assert(s.skip(h.len() as int + 1) =~= p);
}

/// What to do with an address after the text alone is read.
#[derive(Debug)]
pub enum ResolvePlan {
    /// The address named its port: this is the server.
    Fixed(ServerAddress),
    /// No port given: look up an SRV record for this host unless it is an IP
    /// address, and use the default port when none is found.
    Lookup(String),
}

/// The message for a port that does not parse.
pub open spec fn invalid_port_message(p: Seq<char>) -> Seq<char> {
    "invalid port: "@ + p
}

/// Read an address: trim it; with a port, the port must parse; without, the
/// host is to be looked up.
pub fn resolve_plan(input: &str) -> (res: Result<ResolvePlan>)
    ensures
        match host_port_split(trim_ws(input@)) {
            Some((h, p)) => match parse_unsigned(p, 65535) {
                Some(port) => res matches Ok(ResolvePlan::Fixed(a)) && a.host@ == h && a.port
                    == port && !a.srv,
                None => res matches Err(Error::InvalidAddress(m)) && m@ == invalid_port_message(p),
            },
            None => res matches Ok(ResolvePlan::Lookup(h)) && h@ == trim_ws(input@),
        },
{
    let trimmed = trim_text(input);
    let t = string_of(&trimmed);
    match split_host_port(t.as_str()) {
        Some((host, port_str)) => match parse_u16(port_str.as_str()) {
            Some(port) => Ok(ResolvePlan::Fixed(ServerAddress { host, port, srv: false })),
            None => {
                let mut msg: Vec<char> = Vec::new();
                push_str(&mut msg, "invalid port: ");
                push_str(&mut msg, port_str.as_str());
                Err(Error::InvalidAddress(string_of(&msg)))
            },
        },
        None => Ok(ResolvePlan::Lookup(t)),
    }
}

/// The address used when no SRV record gives one: the host on the default port.
pub fn default_address(host: String) -> (res: ServerAddress)
    ensures
        res.host == host,
        res.port == DEFAULT_PORT,
        !res.srv,
{
    ServerAddress { host, port: DEFAULT_PORT, srv: false }
}

// ── SRV query ────────────────────────────────────────

/// The pieces of `b` between the separator bytes `sep`.
pub open spec fn split_bytes(b: Seq<u8>, sep: u8) -> Seq<Seq<u8>>
    decreases b.len(),
{
    match find_byte(b, sep) {
        Some(i) => {
            proof {
                lemma_find_byte_bound(b, sep);
            }
            seq![b.take(i)] + split_bytes(b.skip(i + 1), sep)
        },
        None => seq![b],
    }
}

/// The bytes of the label `_minecraft`.
pub open spec fn minecraft_label() -> Seq<u8> {
    seq![95u8, 109u8, 105u8, 110u8, 101u8, 99u8, 114u8, 97u8, 102u8, 116u8]
}

/// The bytes of the label `_tcp`.
pub open spec fn tcp_label() -> Seq<u8> {
    seq![95u8, 116u8, 99u8, 112u8]
}

/// The labels of the query name `_minecraft._tcp.<domain>`.
pub open spec fn srv_labels(domain: Seq<u8>) -> Seq<Seq<u8>> {
    seq![minecraft_label(), tcp_label()] + split_bytes(domain, 46)
}

/// Labels in DNS form: each as its length byte and its bytes.
pub open spec fn encode_labels(ls: Seq<Seq<u8>>) -> Seq<u8>
    decreases ls.len(),
{
    if ls.len() == 0 {
        Seq::<u8>::empty()
    } else {
        encode_labels(ls.drop_last()) + seq![ls.last().len() as u8] + ls.last()
    }
}

/// The header of the query: id `ABCD`, recursion desired, one question.
pub open spec fn srv_query_header() -> Seq<u8> {
    seq![0xABu8, 0xCDu8, 0x01u8, 0x00u8, 0x00u8, 0x01u8, 0u8, 0u8, 0u8, 0u8, 0u8, 0u8]
}

/// The DNS query for the SRV record of `_minecraft._tcp.<domain>`, when every
/// label of the name has 1 to 63 bytes.
pub open spec fn srv_query_bytes(domain: Seq<u8>) -> Option<Seq<u8>> {
    let ls = srv_labels(domain);
    if forall|k: int| 0 <= k < ls.len() ==> 1 <= #[trigger] ls[k].len() <= 63 {
        Some(srv_query_header() + encode_labels(ls) + seq![0u8, 0x00u8, 0x21u8, 0x00u8, 0x01u8])
    } else {
        None
    }
}

fn push_label(pkt: &mut Vec<u8>, label: &[u8])
    requires
        label@.len() <= 255,
    ensures
        final(pkt)@ == old(pkt)@ + seq![label@.len() as u8] + label@,
{
    pkt.push(label.len() as u8);
    append_bytes(pkt, label);
}

/// Build the SRV query for `_minecraft._tcp.<domain>`.
pub fn build_srv_query(domain: &str) -> (res: Option<Vec<u8>>)
    ensures
        match srv_query_bytes(domain.spec_bytes()) {
            Some(q) => res matches Some(v) && v@ == q,
            None => res is None,
        },
{
    let mut pkt: Vec<u8> = vec![0xAB, 0xCD, 0x01, 0x00, 0x00, 0x01, 0, 0, 0, 0, 0, 0];
    let mc: Vec<u8> = vec![95, 109, 105, 110, 101, 99, 114, 97, 102, 116];
    let tcp: Vec<u8> = vec![95, 116, 99, 112];
    assert(mc@ =~= minecraft_label());
    assert(tcp@ =~= tcp_label());
    assert(pkt@ =~= srv_query_header());
    let ghost ls = srv_labels(domain.spec_bytes());
    push_label(&mut pkt, mc.as_slice());
    push_label(&mut pkt, tcp.as_slice());
    proof {
        assert(ls.take(2) =~= seq![minecraft_label(), tcp_label()]);
        assert(encode_labels(ls.take(1)) == encode_labels(ls.take(1).drop_last()) + seq![
            minecraft_label().len() as u8,
        ] + minecraft_label()) by {
            assert(ls.take(1).drop_last() =~= Seq::<Seq<u8>>::empty());
        }
        assert(ls.take(2).drop_last() =~= ls.take(1));
        assert(pkt@ =~= srv_query_header() + encode_labels(ls.take(2)));
    }
    let bytes = domain.as_bytes();
    let mut pos: usize = 0;
    let ghost mut k: int = 2;
    let ghost rest_pieces = split_bytes(bytes@, 46);
    proof {
        assert(bytes@.skip(0) =~= bytes@);
        assert(ls =~= seq![minecraft_label(), tcp_label()] + rest_pieces);
    }
    loop
        invariant
            pos <= bytes@.len(),
            bytes@ == domain.spec_bytes(),
            ls == srv_labels(domain.spec_bytes()),
            2 <= k <= ls.len(),
            ls.skip(k) == split_bytes(bytes@.skip(pos as int), 46),
            pkt@ == srv_query_header() + encode_labels(ls.take(k)),
            forall|j: int| 0 <= j < k ==> 1 <= #[trigger] ls[j].len() <= 63,
        decreases bytes@.len() - pos,
    {
        let ghost rest = bytes@.skip(pos as int);
        proof {
            lemma_find_byte_bound(rest, 46);
        }
        let tail = slice_subrange(bytes, pos, bytes.len());
        assert(tail@ =~= rest);
        let (end, last) = match find_byte_in(tail, 46) {
            Some(i) => (pos + i, false),
            None => (bytes.len(), true),
        };
        let label = slice_subrange(bytes, pos, end);
        proof {
            assert(split_bytes(rest, 46).len() >= 1);
            assert(ls[k] == ls.skip(k)[0]);
            if !last {
                let i = find_byte(rest, 46).unwrap();
                assert(label@ =~= rest.take(i));
                assert(ls.skip(k)[0] == rest.take(i));
            } else {
                assert(label@ =~= rest);
            }
        }
        if label.len() == 0 || label.len() > 63 {
            return None;
        }
        let ghost before = pkt@;
        push_label(&mut pkt, label);
        proof {
            assert(ls.take(k + 1).drop_last() =~= ls.take(k));
            assert(ls.take(k + 1).last() == label@);
            assert(pkt@ =~= srv_query_header() + encode_labels(ls.take(k + 1)));
        }
        if last {
            proof {
                assert(ls.skip(k) =~= seq![rest]);
                assert(ls.len() == k + 1);
                assert(ls.take(k + 1) =~= ls);
            }
            pkt.push(0x00);
            pkt.push(0x00);
            pkt.push(0x21);
            pkt.push(0x00);
            pkt.push(0x01);
            assert(pkt@ =~= srv_query_header() + encode_labels(ls) + seq![
                0u8,
                0x00u8,
                0x21u8,
                0x00u8,
                0x01u8,
            ]);
            return Some(pkt);
        }
        proof {
            let i = find_byte(rest, 46).unwrap();
            assert(rest.skip(i + 1) =~= bytes@.skip(end + 1));
            assert(ls.skip(k + 1) =~= ls.skip(k).skip(1));
        }
        pos = end + 1;
        proof {
            k = k + 1;
        }
    }
}

// ── SRV answer ───────────────────────────────────────

/// A big-endian 16-bit number from two bytes.
pub open spec fn be16(hi: u8, lo: u8) -> int {
    hi as int * 256 + lo as int
}

/// Where a DNS name starting at `pos` ends: after its terminating zero byte,
/// or after a two-byte compression pointer; `None` when it runs off the data.
pub open spec fn skip_name(data: Seq<u8>, pos: int) -> Option<int>
    decreases data.len() - pos,
{
    if pos < 0 || pos >= data.len() {
        None
    } else if data[pos] == 0 {
        Some(pos + 1)
    } else if data[pos] >= 0xC0 {
        Some(pos + 2)
    } else if pos + 1 + data[pos] >= data.len() {
        None
    } else {
        skip_name(data, pos + 1 + data[pos])
    }
}

/// Skip over a DNS name starting at `pos`.
pub fn skip_dns_name(data: &[u8], start: usize) -> (res: Option<usize>)
    requires
        data@.len() <= isize::MAX,
    ensures
        match skip_name(data@, start as int) {
            Some(p) => res == Some(p as usize),
            None => res is None,
        },
{
    let mut pos = start;
    loop
        invariant
            data@.len() <= isize::MAX,
            skip_name(data@, pos as int) == skip_name(data@, start as int),
        decreases data@.len() - pos,
    {
        if pos >= data.len() {
            return None;
        }
        let len = data[pos] as usize;
        if len == 0 {
            return Some(pos + 1);
        }
        if len >= 0xC0 {
            return Some(pos + 2);
        }
        if 1 + len >= data.len() - pos {
            return None;
        }
        pos = pos + 1 + len;
    }
}

/// A name that can be skipped ends at most one byte past the data.
pub proof fn lemma_skip_name_bound(data: Seq<u8>, pos: int)
    ensures
        skip_name(data, pos) matches Some(p) ==> pos < p <= data.len() + 1,
    decreases data.len() - pos,
{
    if 0 <= pos < data.len() && data[pos] != 0 && data[pos] < 0xC0 && pos + 1 + data[pos]
        < data.len() {
        lemma_skip_name_bound(data, pos + 1 + data[pos]);
    }
}


proof fn lemma_encode_labels_cons(l: Seq<u8>, rest: Seq<Seq<u8>>)
    ensures
        encode_labels(seq![l] + rest) == seq![l.len() as u8] + l + encode_labels(rest),
    decreases rest.len(),
{
    if rest.len() == 0 {
        assert(seq![l] + rest =~= seq![l]);
        assert(seq![l].drop_last() =~= Seq::<Seq<u8>>::empty());
        assert(seq![l].last() == l);
        assert(encode_labels(Seq::<Seq<u8>>::empty()) == Seq::<u8>::empty());
        assert(seq![l.len() as u8] + l + Seq::<u8>::empty() =~= Seq::<u8>::empty() + seq![
            l.len() as u8,
        ] + l);
    } else {
        lemma_encode_labels_cons(l, rest.drop_last());
        assert((seq![l] + rest).drop_last() =~= seq![l] + rest.drop_last());
        assert((seq![l] + rest).last() == rest.last());
        let x = rest.last();
        assert(seq![l.len() as u8] + l + encode_labels(rest.drop_last()) + seq![x.len() as u8] + x
            =~= seq![l.len() as u8] + l + (encode_labels(rest.drop_last()) + seq![x.len() as u8]
            + x));
    }
}

proof fn lemma_skip_labels(d: Seq<u8>, pos: int, ls: Seq<Seq<u8>>)
    requires
        0 <= pos,
        forall|k: int| 0 <= k < ls.len() ==> 1 <= #[trigger] ls[k].len() <= 63,
        pos + encode_labels(ls).len() < d.len(),
        d.subrange(pos, pos + encode_labels(ls).len() + 1) == encode_labels(ls) + seq![0u8],
    ensures
        skip_name(d, pos) == Some(pos + encode_labels(ls).len() + 1),
    decreases ls.len(),
{
    let enc = encode_labels(ls);
    if ls.len() == 0 {
        assert(enc == Seq::<u8>::empty());
        assert(d[pos] == d.subrange(pos, pos + 1)[0]);
    } else {
        let l = ls[0];
        let rest = ls.skip(1);
        assert(ls =~= seq![l] + rest);
        lemma_encode_labels_cons(l, rest);
        let sub = d.subrange(pos, pos + enc.len() + 1);
        assert(d[pos] == sub[0]);
        assert(sub[0] == l.len() as u8);
        assert(l.len() <= 63);
        let next = pos + 1 + l.len();
        assert forall|k: int| 0 <= k < rest.len() implies 1 <= #[trigger] rest[k].len() <= 63 by {
            assert(rest[k] == ls[k + 1]);
        }
        assert(d.subrange(next, next + encode_labels(rest).len() + 1) =~= encode_labels(rest)
            + seq![0u8]) by {
            assert forall|j: int| 0 <= j < encode_labels(rest).len() + 1 implies d.subrange(
                next,
                next + encode_labels(rest).len() + 1,
            )[j] == (encode_labels(rest) + seq![0u8])[j] by {
                assert(d[next + j] == sub[1 + l.len() + j]);
            }
        }
        lemma_skip_labels(d, next, rest);
    }
}

/// The answer reader skips exactly the question the query asked: in a built
/// query, the name that starts after the header ends four bytes before the
/// end, where the type and class are.
pub proof fn lemma_query_question_skipped(domain: Seq<u8>)
    ensures
        srv_query_bytes(domain) matches Some(q) ==> skip_name(q, 12) == Some(q.len() - 4),
{
    if let Some(q) = srv_query_bytes(domain) {
        let ls = srv_labels(domain);
        let enc = encode_labels(ls);
        assert(q =~= srv_query_header() + enc + seq![0u8, 0x00u8, 0x21u8, 0x00u8, 0x01u8]);
        assert(q.subrange(12, 12 + enc.len() as int + 1) =~= enc + seq![0u8]);
        lemma_skip_labels(q, 12, ls);
    }
}

/// The name with `label` appended, a dot between labels.
pub open spec fn with_label(name: Seq<char>, label: Seq<char>) -> Seq<char> {
    if name.len() == 0 {
        label
    } else {
        name + seq!['.'] + label
    }
}

/// The DNS name at `pos`, read after `jumps` compression pointers, appended
/// to `name`: labels joined by dots, each valid UTF-8; pointers followed, at
/// most ten of them; `None` when the data runs out or a label is not UTF-8.
pub open spec fn name_at(data: Seq<u8>, pos: int, jumps: nat, name: Seq<char>) -> Option<
    Seq<char>,
>
    decreases 11 - jumps, data.len() - pos,
{
    if pos < 0 || pos >= data.len() || jumps > 10 {
        None
    } else if data[pos] == 0 {
        Some(name)
    } else if data[pos] >= 0xC0 {
        if pos + 1 >= data.len() {
            None
        } else {
            name_at(data, (data[pos] - 0xC0) * 256 + data[pos + 1], jumps + 1, name)
        }
    } else if pos + 1 + data[pos] > data.len() {
        None
    } else {
        let label = data.subrange(pos + 1, pos + 1 + data[pos]);
        if valid_utf8(label) {
            name_at(data, pos + 1 + data[pos], jumps, with_label(name, decode_utf8(label)))
        } else {
            None
        }
    }
}

/// Read the DNS name at `pos`, following compression pointers.
pub fn read_dns_name(data: &[u8], start: usize) -> (res: Option<String>)
    requires
        data@.len() <= isize::MAX,
    ensures
        match name_at(data@, start as int, 0, Seq::<char>::empty()) {
            Some(n) => res matches Some(s) && s@ == n,
            None => res is None,
        },
{
    let mut pos = start;
    let mut name: Vec<char> = Vec::new();
    let mut jumps: usize = 0;
    loop
        invariant
            data@.len() <= isize::MAX,
            jumps <= 11,
            name_at(data@, pos as int, jumps as nat, name@) == name_at(
                data@,
                start as int,
                0,
                Seq::<char>::empty(),
            ),
        ensures
            name_at(data@, start as int, 0, Seq::<char>::empty()) == Some(name@),
        decreases 11 - jumps, data@.len() - pos,
    {
        if pos >= data.len() || jumps > 10 {
            return None;
        }
        let len = data[pos] as usize;
        if len == 0 {
            break;
        }
        if len >= 0xC0 {
            if pos + 1 >= data.len() {
                return None;
            }
            let offset = (len - 0xC0) * 256 + data[pos + 1] as usize;
            pos = offset;
            jumps += 1;
            continue;
        }
        if 1 + len > data.len() - pos {
            return None;
        }
        let label = slice_subrange(data, pos + 1, pos + 1 + len);
        let text = match str_from_utf8(label) {
            Ok(t) => t,
            Err(_) => {
                return None;
            },
        };
        let ghost before = name@;
        if name.len() > 0 {
            name.push('.');
        }
        push_str(&mut name, text);
        proof {
            assert(label@ =~= data@.subrange(pos + 1, pos + 1 + len));
            assert(name@ =~= with_label(before, decode_utf8(label@)));
        }
        pos = pos + 1 + len;
    }
    Some(string_of(&name))
}

/// The target and port of the first answer of an SRV response: the header
/// must say there is an answer; the question and the answer's name are
/// skipped; the answer must be of type 33 (SRV) with at least 7 bytes of
/// data, all inside the response; the target name loses its trailing dots
/// and must not be empty.
pub open spec fn srv_answer(data: Seq<u8>) -> Option<(Seq<char>, u16)> {
    if data.len() < 12 || be16(data[6], data[7]) == 0 {
        None
    } else {
        match skip_name(data, 12) {
            None => None,
            Some(p1) => match skip_name(data, p1 + 4) {
                None => None,
                Some(p) => if p + 10 > data.len() {
                    None
                } else {
                    let rtype = be16(data[p], data[p + 1]);
                    let rdlength = be16(data[p + 8], data[p + 9]);
                    let at = p + 10;
                    if rtype != 33 || at + rdlength > data.len() || rdlength < 7 {
                        None
                    } else {
                        match name_at(data, at + 6, 0, Seq::<char>::empty()) {
                            None => None,
                            Some(t) => {
                                let target = trim_end_char(t, '.');
                                if target.len() == 0 {
                                    None
                                } else {
                                    Some((target, be16(data[at + 4], data[at + 5]) as u16))
                                }
                            },
                        }
                    }
                },
            },
        }
    }
}

/// Characters below 128 are encoded as one byte each, of the same value.
pub proof fn lemma_encode_ascii(x: Seq<char>)
    requires
        forall|k: int| 0 <= k < x.len() ==> (#[trigger] x[k]) as u32 <= 0x7F,
    ensures
        encode_utf8(x).len() == x.len(),
        forall|k: int| 0 <= k < x.len() ==> (#[trigger] encode_utf8(x)[k]) as u32 == x[k] as u32,
    decreases x.len(),
{
    if x.len() > 0 {
        let v = x[0] as u32;
        assert(v <= 0x7F);
        lemma_ascii_byte(v);
        assert(encode_scalar(v) =~= seq![leading_byte_width_1(v)]);
        let r = x.drop_first();
        assert forall|k: int| 0 <= k < r.len() implies (#[trigger] r[k]) as u32 <= 0x7F by {
            assert(r[k] == x[k + 1]);
        }
        lemma_encode_ascii(r);
        assert forall|k: int| 0 <= k < x.len() implies (#[trigger] encode_utf8(x)[k]) as u32
            == x[k] as u32 by {
            if k > 0 {
                assert(encode_utf8(x)[k] == encode_utf8(r)[k - 1]);
                assert(r[k - 1] == x[k]);
            }
        }
    }
}

proof fn lemma_fixed_labels()
    ensures
        minecraft_label() == encode_utf8("_minecraft"@),
        tcp_label() == encode_utf8("_tcp"@),
{
    reveal_strlit("_minecraft");
    reveal_strlit("_tcp");
    let m = "_minecraft"@;
    let t = "_tcp"@;
    lemma_encode_ascii(m);
    lemma_encode_ascii(t);
    assert(encode_utf8(m) =~= minecraft_label()) by {
        assert forall|k: int| 0 <= k < m.len() implies encode_utf8(m)[k] == minecraft_label()[k] by {
            assert(encode_utf8(m)[k] as u32 == m[k] as u32);
        }
    }
    assert(encode_utf8(t) =~= tcp_label()) by {
        assert forall|k: int| 0 <= k < t.len() implies encode_utf8(t)[k] == tcp_label()[k] by {
            assert(encode_utf8(t)[k] as u32 == t[k] as u32);
        }
    }
}

/// Reading the name of a built SRV query gives `_minecraft._tcp.` and the
/// domain back.
pub proof fn lemma_query_name_read_back(domain: Seq<char>)
    ensures
        srv_query_bytes(encode_utf8(domain)) matches Some(q) ==> name_at(q, 12, 0, Seq::<char>::empty())
            == Some("_minecraft._tcp."@ + domain),
{
    broadcast use encode_utf8_valid_utf8, encode_utf8_decode_utf8;

    if let Some(q) = srv_query_bytes(encode_utf8(domain)) {
        let ls = srv_labels(encode_utf8(domain));
        let enc = encode_labels(ls);
        let pieces = split_bytes(encode_utf8(domain), 46);
        assert(q =~= srv_query_header() + enc + seq![0u8, 0x00u8, 0x21u8, 0x00u8, 0x01u8]);
        assert(q.subrange(12, 12 + enc.len() as int + 1) =~= enc + seq![0u8]);
        lemma_split_dots(domain);
        lemma_fixed_labels();
        let m = "_minecraft"@;
        let t = "_tcp"@;
        assert(ls[0] == encode_utf8(m));
        assert(ls[1] == encode_utf8(t));
        assert forall|k: int| 0 <= k < ls.len() implies 1 <= #[trigger] ls[k].len() <= 63 && valid_utf8(
            ls[k],
        ) by {
            if k >= 2 {
                assert(ls[k] == pieces[k - 2]);
            }
        }
        lemma_name_labels(q, 12, ls, Seq::<char>::empty());
        assert(decode_utf8(ls[0]) == m);
        assert(decode_utf8(ls[1]) == t);
        reveal_strlit("_minecraft");
        let l1 = ls.skip(1);
        assert(l1[0] == ls[1]);
        assert(l1.skip(1) =~= pieces);
        assert(with_label(Seq::<char>::empty(), m) == m);
        let mt = m + seq!['.'] + t;
        assert(with_label(m, t) == mt);
        assert(labels_name(Seq::<char>::empty(), ls) == labels_name(m, l1));
        assert(labels_name(m, l1) == labels_name(mt, pieces));
        lemma_labels_name_dots(mt, pieces);
        reveal_strlit("_tcp");
        reveal_strlit("_minecraft._tcp.");
        assert("_minecraft._tcp."@ + domain =~= mt + (seq!['.'] + domain));
    }
}

proof fn lemma_trim_end_char_last(s: Seq<char>, c: char)
    ensures
        trim_end_char(s, c).len() > 0 ==> trim_end_char(s, c).last() != c,
    decreases s.len(),
{
    if s.len() > 0 && s.last() == c {
        lemma_trim_end_char_last(s.drop_last(), c);
    }
}

// ── Reading a query's name back ──────────────────────

/// The name the labels `ls` spell, read after `nm`: each label decoded and
/// joined on with a dot.
pub open spec fn labels_name(nm: Seq<char>, ls: Seq<Seq<u8>>) -> Seq<char>
    decreases ls.len(),
{
    if ls.len() == 0 {
        nm
    } else {
        labels_name(with_label(nm, decode_utf8(ls[0])), ls.skip(1))
    }
}

/// Each label decoded, with a dot before it.
pub open spec fn dotted_labels(ls: Seq<Seq<u8>>) -> Seq<char>
    decreases ls.len(),
{
    if ls.len() == 0 {
        Seq::<char>::empty()
    } else {
        seq!['.'] + decode_utf8(ls[0]) + dotted_labels(ls.skip(1))
    }
}

proof fn lemma_name_labels(d: Seq<u8>, pos: int, ls: Seq<Seq<u8>>, nm: Seq<char>)
    requires
        0 <= pos,
        forall|k: int| 0 <= k < ls.len() ==> 1 <= #[trigger] ls[k].len() <= 63 && valid_utf8(ls[k]),
        pos + encode_labels(ls).len() < d.len(),
        d.subrange(pos, pos + encode_labels(ls).len() + 1) == encode_labels(ls) + seq![0u8],
    ensures
        name_at(d, pos, 0, nm) == Some(labels_name(nm, ls)),
    decreases ls.len(),
{
    let enc = encode_labels(ls);
    if ls.len() == 0 {
        assert(enc == Seq::<u8>::empty());
        assert(d[pos] == d.subrange(pos, pos + 1)[0]);
    } else {
        let l = ls[0];
        let rest = ls.skip(1);
        assert(ls =~= seq![l] + rest);
        lemma_encode_labels_cons(l, rest);
        let sub = d.subrange(pos, pos + enc.len() + 1);
        assert(d[pos] == sub[0]);
        assert(sub[0] == l.len() as u8);
        assert(1 <= l.len() <= 63 && valid_utf8(l));
        let next = pos + 1 + l.len();
        assert(d.subrange(pos + 1, next) =~= l) by {
            assert forall|j: int| 0 <= j < l.len() implies d.subrange(pos + 1, next)[j] == l[j] by {
                assert(d[pos + 1 + j] == sub[1 + j]);
            }
        }
        assert forall|k: int| 0 <= k < rest.len() implies 1 <= #[trigger] rest[k].len() <= 63
            && valid_utf8(rest[k]) by {
            assert(rest[k] == ls[k + 1]);
        }
        assert(d.subrange(next, next + encode_labels(rest).len() + 1) =~= encode_labels(rest)
            + seq![0u8]) by {
            assert forall|j: int| 0 <= j < encode_labels(rest).len() + 1 implies d.subrange(
                next,
                next + encode_labels(rest).len() + 1,
            )[j] == (encode_labels(rest) + seq![0u8])[j] by {
                assert(d[next + j] == sub[1 + l.len() + j]);
            }
        }
        lemma_name_labels(d, next, rest, with_label(nm, decode_utf8(l)));
    }
}

proof fn lemma_labels_name_dots(nm: Seq<char>, ls: Seq<Seq<u8>>)
    requires
        nm.len() > 0,
    ensures
        labels_name(nm, ls) == nm + dotted_labels(ls),
    decreases ls.len(),
{
    if ls.len() == 0 {
        assert(nm + Seq::<char>::empty() =~= nm);
    } else {
        let next = with_label(nm, decode_utf8(ls[0]));
        lemma_labels_name_dots(next, ls.skip(1));
        assert(nm + (seq!['.'] + decode_utf8(ls[0]) + dotted_labels(ls.skip(1))) =~= next
            + dotted_labels(ls.skip(1)));
    }
}

proof fn lemma_find_byte_at(b: Seq<u8>, x: u8, i: int)
    requires
        0 <= i < b.len(),
        b[i] == x,
        forall|j: int| 0 <= j < i ==> b[j] != x,
    ensures
        find_byte(b, x) == Some(i),
    decreases i,
{
    if i > 0 {
        assert(b[0] != x);
        assert forall|j: int| 0 <= j < i - 1 implies b.skip(1)[j] != x by {
            assert(b.skip(1)[j] == b[j + 1]);
        }
        lemma_find_byte_at(b.skip(1), x, i - 1);
    }
}

proof fn lemma_find_byte_absent(b: Seq<u8>, x: u8)
    requires
        forall|j: int| 0 <= j < b.len() ==> b[j] != x,
    ensures
        find_byte(b, x) is None,
    decreases b.len(),
{
    if b.len() > 0 {
        assert(b[0] != x);
        assert forall|j: int| 0 <= j < b.skip(1).len() implies b.skip(1)[j] != x by {
            assert(b.skip(1)[j] == b[j + 1]);
        }
        lemma_find_byte_absent(b.skip(1), x);
    }
}

proof fn lemma_encode_concat(a: Seq<char>, b: Seq<char>)
    ensures
        encode_utf8(a + b) == encode_utf8(a) + encode_utf8(b),
    decreases a.len(),
{
    if a.len() == 0 {
        assert(a + b =~= b);
        assert(Seq::<u8>::empty() + encode_utf8(b) =~= encode_utf8(b));
    } else {
        assert((a + b)[0] == a[0]);
        assert((a + b).drop_first() =~= a.drop_first() + b);
        lemma_encode_concat(a.drop_first(), b);
        assert(encode_scalar(a[0] as u32) + (encode_utf8(a.drop_first()) + encode_utf8(b))
            =~= encode_scalar(a[0] as u32) + encode_utf8(a.drop_first()) + encode_utf8(b));
    }
}

proof fn lemma_ascii_byte(v: u32)
    by (bit_vector)
    requires
        v <= 0x7F,
    ensures
        leading_byte_width_1(v) as u32 == v,
{
}

proof fn lemma_high_bytes(y: u8)
    by (bit_vector)
    ensures
        (0x80u8 | y) != 46u8,
        (0xC0u8 | y) != 46u8,
        (0xE0u8 | y) != 46u8,
        (0xF0u8 | y) != 46u8,
{
}

proof fn lemma_scalar_no_dot(c: char)
    requires
        c != '.',
    ensures
        forall|j: int| 0 <= j < encode_scalar(c as u32).len() ==> #[trigger] encode_scalar(c as u32)[j] != 46u8,
{
    let v = c as u32;
    char_is_scalar(c);
    if has_width_1_encoding(v) {
        lemma_ascii_byte(v);
        if v == 46 {
            char_u32_cast(c, v);
            assert((46u32 as char) == '.');
        }
    } else {
        lemma_high_bytes(((v >> 6) & 0x1F) as u8);
        lemma_high_bytes(((v >> 12) & 0x0F) as u8);
        lemma_high_bytes(((v >> 18) & 0x7) as u8);
        lemma_high_bytes((v & 0x3F) as u8);
        lemma_high_bytes(((v >> 6) & 0x3F) as u8);
        lemma_high_bytes(((v >> 12) & 0x3F) as u8);
    }
}

proof fn lemma_encode_no_dot(x: Seq<char>)
    requires
        forall|k: int| 0 <= k < x.len() ==> x[k] != '.',
    ensures
        forall|j: int| 0 <= j < encode_utf8(x).len() ==> encode_utf8(x)[j] != 46u8,
    decreases x.len(),
{
    if x.len() > 0 {
        assert(x[0] != '.');
        lemma_scalar_no_dot(x[0]);
        assert forall|k: int| 0 <= k < x.drop_first().len() implies x.drop_first()[k] != '.' by {
            assert(x.drop_first()[k] == x[k + 1]);
        }
        lemma_encode_no_dot(x.drop_first());
        let h = encode_scalar(x[0] as u32);
        let t = encode_utf8(x.drop_first());
        assert forall|j: int| 0 <= j < encode_utf8(x).len() implies encode_utf8(x)[j] != 46u8 by {
            if j < h.len() {
                assert(encode_utf8(x)[j] == h[j]);
            } else {
                assert(encode_utf8(x)[j] == t[j - h.len()]);
            }
        }
    }
}

proof fn lemma_encode_dot()
    ensures
        encode_utf8(seq!['.']) == seq![46u8],
{
    let one: Seq<char> = seq!['.'];
    assert(one[0] as u32 == 46);
    lemma_ascii_byte(46);
    assert(one.drop_first() =~= Seq::<char>::empty());
    assert(encode_utf8(one.drop_first()) == Seq::<u8>::empty());
    assert(encode_scalar(46) =~= seq![46u8]);
    assert(seq![46u8] + Seq::<u8>::empty() =~= seq![46u8]);
}

/// Splitting a name's UTF-8 bytes at the dots and decoding the pieces gives
/// the name back, a dot before each piece; every piece is valid UTF-8.
proof fn lemma_split_dots(d: Seq<char>)
    ensures
        dotted_labels(split_bytes(encode_utf8(d), 46)) == seq!['.'] + d,
        forall|k: int|
            0 <= k < split_bytes(encode_utf8(d), 46).len() ==> valid_utf8(
                #[trigger] split_bytes(encode_utf8(d), 46)[k],
            ),
    decreases d.len(),
{
    broadcast use encode_utf8_valid_utf8, encode_utf8_decode_utf8;

    let e = encode_utf8(d);
    lemma_find_char_bound(d, '.');
    match find_char(d, '.') {
        None => {
            lemma_encode_no_dot(d);
            lemma_find_byte_absent(e, 46);
            let sp = split_bytes(e, 46);
            assert(sp == seq![e]);
            assert(sp.skip(1) =~= Seq::<Seq<u8>>::empty());
            assert(dotted_labels(sp.skip(1)) == Seq::<char>::empty());
            assert(seq!['.'] + d + Seq::<char>::empty() =~= seq!['.'] + d);
        },
        Some(i) => {
            let a = d.take(i);
            let rest = d.skip(i + 1);
            assert(d =~= a + seq!['.'] + rest);
            assert forall|k: int| 0 <= k < a.len() implies a[k] != '.' by {
                assert(a[k] == d[k]);
            }
            lemma_encode_no_dot(a);
            lemma_encode_concat(a, seq!['.']);
            lemma_encode_concat(a + seq!['.'], rest);
            lemma_encode_dot();
            let ea = encode_utf8(a);
            let er = encode_utf8(rest);
            assert(e == ea + seq![46u8] + er);
            assert forall|j: int| 0 <= j < ea.len() implies e[j] != 46u8 by {
                assert(e[j] == ea[j]);
            }
            lemma_find_byte_at(e, 46, ea.len() as int);
            assert(e.take(ea.len() as int) =~= ea);
            assert(e.skip(ea.len() as int + 1) =~= er);
            let sp = split_bytes(e, 46);
            assert(sp == seq![ea] + split_bytes(er, 46));
            lemma_split_dots(rest);
            assert(sp[0] == ea);
            assert(sp.skip(1) =~= split_bytes(er, 46));
            assert(seq!['.'] + a + (seq!['.'] + rest) =~= seq!['.'] + d);
            assert forall|k: int| 0 <= k < sp.len() implies valid_utf8(#[trigger] sp[k]) by {
                if k > 0 {
                    assert(sp[k] == split_bytes(er, 46)[k - 1]);
                }
            }
        },
    }
}

/// What an SRV answer gives is a non-empty host that does not end with a
/// dot, flagged as found through SRV; there is none when the response is
/// shorter than its header, says it has no answer, or its first answer is
/// not of type 33, has fewer than 7 bytes of data or data that runs past the
/// end.
pub proof fn lemma_srv_answer_shape(data: Seq<u8>)
    ensures
        srv_answer(data) matches Some((host, port)) ==> host.len() > 0 && host.last() != '.',
        data.len() < 12 ==> srv_answer(data) is None,
        data.len() >= 12 && be16(data[6], data[7]) == 0 ==> srv_answer(data) is None,
        forall|p1: int, p: int|
            #![trigger skip_name(data, 12), skip_name(data, p1 + 4), data[p]]
            data.len() >= 12 && skip_name(data, 12) == Some(p1) && skip_name(data, p1 + 4) == Some(p)
                && p + 10 <= data.len() && (be16(data[p], data[p + 1]) != 33 || be16(
                data[p + 8],
                data[p + 9],
            ) < 7 || p + 10 + be16(data[p + 8], data[p + 9]) > data.len()) ==> srv_answer(data) is None,
{
    if data.len() >= 12 && be16(data[6], data[7]) != 0 {
        if let Some(p1) = skip_name(data, 12) {
            if let Some(p) = skip_name(data, p1 + 4) {
                if p + 10 <= data.len() {
                    let at = p + 10;
                    if let Some(t) = name_at(data, at + 6, 0, Seq::<char>::empty()) {
                        lemma_trim_end_char_last(t, '.');
                    }
                }
            }
        }
    }
}

fn be16_of(hi: u8, lo: u8) -> (res: u16)
    ensures
        res as int == be16(hi, lo),
{
    (hi as u16) * 256 + lo as u16
}

/// The server an SRV response points to.
pub fn parse_srv_response(data: &[u8]) -> (res: Option<ServerAddress>)
    requires
        data@.len() <= isize::MAX,
    ensures
        match srv_answer(data@) {
            Some((host, port)) => res matches Some(a) && a.host@ == host && a.port == port
                && a.srv,
            None => res is None,
        },
{
    if data.len() < 12 {
        return None;
    }
    let answer_count = be16_of(data[6], data[7]);
    if answer_count == 0 {
        return None;
    }
    proof {
        lemma_skip_name_bound(data@, 12);
    }
    let p1 = match skip_dns_name(data, 12) {
        Some(p) => p,
        None => {
            return None;
        },
    };
    proof {
        lemma_skip_name_bound(data@, p1 + 4);
    }
    let p = match skip_dns_name(data, p1 + 4) {
        Some(p) => p,
        None => {
            return None;
        },
    };
    if p + 10 > data.len() {
        return None;
    }
    let rtype = be16_of(data[p], data[p + 1]);
    let rdlength = be16_of(data[p + 8], data[p + 9]) as usize;
    let at = p + 10;
    if rtype != 33 || at + rdlength > data.len() || rdlength < 7 {
        return None;
    }
    let port = be16_of(data[at + 4], data[at + 5]);
    let target = match read_dns_name(data, at + 6) {
        Some(t) => t,
        None => {
            return None;
        },
    };
    let tchars = chars_of(target.as_str());
    let trimmed = trim_end_chars(&tchars, '.');
    if trimmed.len() == 0 {
        return None;
    }
    Some(ServerAddress { host: string_of(&trimmed), port, srv: true })
}

} // verus!
