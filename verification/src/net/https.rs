use crate::error::{Error, Result};
use crate::text::{
    chars_of, find_char, find_char_from, is_whitespace, lemma_find_char_bound, push_chars,
    push_str, split_lines, starts_with, str_from_utf8, string_of, sub_chars, text_lines,
    trim_start_ws, trim_text, trim_ws,
};
use vstd::prelude::*;
use vstd::slice::slice_subrange;
use vstd::string::StringSliceAdditionalSpecFns;
use vstd::utf8::{decode_utf8, valid_utf8};

verus! {

// ── Text helpers ─────────────────────────────────────

/// The text `String::from_utf8_lossy` makes of `bytes`.
pub uninterp spec fn utf8_lossy(bytes: Seq<u8>) -> Seq<char>;

/// The text `str::to_lowercase` makes of `s`.
pub uninterp spec fn lowercase(s: Seq<char>) -> Seq<char>;

/// Calls `String::from_utf8_lossy`. Claims: the result is a function of the
/// bytes alone, and valid UTF-8 is decoded as it is (its documentation: the
/// input is returned unchanged when it is valid); how invalid sequences are
/// replaced is left unstated.
#[verifier::external_body]
pub fn string_from_utf8_lossy(bytes: &[u8]) -> (res: String)
    ensures
        res@ == utf8_lossy(bytes@),
        valid_utf8(bytes@) ==> res@ == decode_utf8(bytes@),
{
    String::from_utf8_lossy(bytes).into_owned()
}

/// Calls `str::to_lowercase`. Claims only that the result is a function of
/// the text; Unicode's case mapping is left unstated.
#[verifier::external_body]
pub fn to_lowercase(s: &str) -> (res: String)
    ensures
        res@ == lowercase(s@),
{
    s.to_lowercase()
}

/// The index of the first occurrence of `pat` in `s`.
pub open spec fn find_text(s: Seq<char>, pat: Seq<char>) -> Option<int>
    decreases s.len(),
{
    if s.len() < pat.len() {
        None
    } else if s.take(pat.len() as int) == pat {
        Some(0)
    } else if s.len() == 0 {
        None
    } else {
        match find_text(s.skip(1), pat) {
            Some(i) => Some(i + 1),
            None => None,
        }
    }
}

pub proof fn lemma_find_text_bound(s: Seq<char>, pat: Seq<char>)
    ensures
        find_text(s, pat) matches Some(i) ==> 0 <= i && i + pat.len() <= s.len()
            && s.subrange(i, i + pat.len()) == pat,
    decreases s.len(),
{
    if s.len() >= pat.len() && s.take(pat.len() as int) != pat && s.len() > 0 {
        lemma_find_text_bound(s.skip(1), pat);
        if let Some(i) = find_text(s.skip(1), pat) {
            assert(s.subrange(i + 1, i + 1 + pat.len()) =~= s.skip(1).subrange(i, i + pat.len()));
        }
    } else if s.len() >= pat.len() && s.take(pat.len() as int) == pat {
        assert(s.subrange(0, pat.len() as int) =~= s.take(pat.len() as int));
    }
}

/// Whether `pat` occurs in `s`.
pub open spec fn contains_text(s: Seq<char>, pat: Seq<char>) -> bool {
    find_text(s, pat) is Some
}

fn matches_at(s: &Vec<char>, pat: &Vec<char>, at: usize) -> (res: bool)
    requires
        at + pat@.len() <= s@.len(),
    ensures
        res == (s@.skip(at as int).take(pat@.len() as int) == pat@),
{
    let slen = s.len();
    let mut k: usize = 0;
    while k < pat.len()
        invariant
            slen == s@.len(),
            k <= pat@.len(),
            at + pat@.len() <= s@.len(),
            forall|j: int| 0 <= j < k ==> s@[at + j] == pat@[j],
        decreases pat@.len() - k,
    {
        if s[at + k] != pat[k] {
            assert(s@.skip(at as int).take(pat@.len() as int)[k as int] != pat@[k as int]);
            return false;
        }
        k += 1;
    }
    assert(s@.skip(at as int).take(pat@.len() as int) =~= pat@);
    true
}

/// Find the first occurrence of `pat` in `s`.
pub fn find_text_in(s: &Vec<char>, pat: &Vec<char>) -> (res: Option<usize>)
    ensures
        match find_text(s@, pat@) {
            Some(i) => res == Some(i as usize),
            None => res is None,
        },
{
    let mut i: usize = 0;
    proof {
        assert(s@.skip(0) =~= s@);
    }
    while pat.len() <= s.len() - i
        invariant
            i <= s@.len(),
            find_text(s@.skip(i as int), pat@) matches Some(j) ==> find_text(s@, pat@) == Some(
                i + j,
            ),
            find_text(s@.skip(i as int), pat@) is None ==> find_text(s@, pat@) is None,
        decreases s@.len() - i,
    {
        let ghost rest = s@.skip(i as int);
        if matches_at(s, pat, i) {
            return Some(i);
        }
        if i == s.len() {
            return None;
        }
        assert(rest.skip(1) =~= s@.skip(i + 1));
        i += 1;
    }
    None
}

// ── URLs and requests ────────────────────────────────

/// `https://host/path` as host and path; the path is `/` when the URL has
/// none.
pub open spec fn url_parts(url: Seq<char>) -> Option<(Seq<char>, Seq<char>)> {
    if starts_with(url, "https://"@) {
        let rest = url.skip(8);
        match find_char(rest, '/') {
            Some(i) => Some((rest.take(i), rest.skip(i))),
            None => Some((rest, "/"@)),
        }
    } else {
        None
    }
}

/// Parse `https://host/path` into `(host, path)`.
pub fn parse_url(url: &str) -> (res: Result<(String, String)>)
    ensures
        match url_parts(url@) {
            Some((h, p)) => res matches Ok((rh, rp)) && rh@ == h && rp@ == p,
            None => res matches Err(Error::MojangApi(m)) && m@ == "not HTTPS: "@ + url@,
        },
{
    let chars = chars_of(url);
    let prefix = chars_of("https://");
    proof {
        reveal_strlit("https://");
    }
    if chars.len() < 8 || !crate::text::chars_eq(&sub_chars(&chars, 0, 8), &prefix) {
        let mut msg: Vec<char> = Vec::new();
        push_str(&mut msg, "not HTTPS: ");
        push_chars(&mut msg, &chars);
        return Err(Error::MojangApi(string_of(&msg)));
    }
    assert(chars@.subrange(0, 8) =~= chars@.take(8));
    let rest = sub_chars(&chars, 8, chars.len());
    assert(rest@ =~= chars@.skip(8));
    proof {
        lemma_find_char_bound(rest@, '/');
        assert(rest@.skip(0) =~= rest@);
    }
    match find_char_from(&rest, '/', 0) {
        Some(i) => {
            let host = sub_chars(&rest, 0, i);
            let path = sub_chars(&rest, i, rest.len());
            assert(host@ =~= rest@.take(i as int));
            assert(path@ =~= rest@.skip(i as int));
            Ok((string_of(&host), string_of(&path)))
        },
        None => {
            let path = chars_of("/");
            Ok((string_of(&rest), string_of(&path)))
        },
    }
}

/// The HTTP/1.1 GET request for `path` on `host`.
pub open spec fn request_text(host: Seq<char>, path: Seq<char>) -> Seq<char> {
    "GET "@ + path + " HTTP/1.1\r\nHost: "@ + host
        + "\r\nConnection: close\r\nUser-Agent: zerotick\r\n\r\n"@
}

/// Build the GET request for `path` on `host`.
pub fn get_request(host: &str, path: &str) -> (res: String)
    ensures
        res@ == request_text(host@, path@),
{
    let mut out: Vec<char> = Vec::new();
    push_str(&mut out, "GET ");
    push_str(&mut out, path);
    push_str(&mut out, " HTTP/1.1\r\nHost: ");
    push_str(&mut out, host);
    push_str(&mut out, "\r\nConnection: close\r\nUser-Agent: zerotick\r\n\r\n");
    assert(out@ =~= request_text(host@, path@));
    string_of(&out)
}

// ── Chunked bodies ───────────────────────────────────

/// The value of a hexadecimal digit character.
pub open spec fn hex_char_value(c: char) -> Option<nat> {
    if '0' <= c && c <= '9' {
        Some((c as int - 48) as nat)
    } else if 'a' <= c && c <= 'f' {
        Some((c as int - 87) as nat)
    } else if 'A' <= c && c <= 'F' {
        Some((c as int - 55) as nat)
    } else {
        None
    }
}

pub open spec fn all_hex(d: Seq<char>) -> bool {
    forall|k: int| 0 <= k < d.len() ==> (#[trigger] hex_char_value(d[k])) is Some
}

/// The value of a run of hexadecimal digits.
pub open spec fn hex_digits_value(d: Seq<char>) -> nat
    decreases d.len(),
{
    if d.len() == 0 {
        0
    } else {
        hex_digits_value(d.drop_last()) * 16 + hex_char_value(d.last()).unwrap_or(0)
    }
}

/// What `usize::from_str_radix(s, 16)` gives: an optional `+`, then one or
/// more hexadecimal digits whose value fits.
pub open spec fn parse_hex_size(s: Seq<char>) -> Option<nat> {
    let d = if s.len() > 0 && s[0] == '+' {
        s.skip(1)
    } else {
        s
    };
    if d.len() > 0 && all_hex(d) && hex_digits_value(d) <= usize::MAX {
        Some(hex_digits_value(d))
    } else {
        None
    }
}

proof fn lemma_hex_value_grows(d: Seq<char>, i: int)
    requires
        0 <= i <= d.len(),
    ensures
        hex_digits_value(d.take(i)) <= hex_digits_value(d),
    decreases d.len(),
{
    if i < d.len() {
        lemma_hex_value_grows(d.drop_last(), i);
        assert(d.drop_last().take(i) =~= d.take(i));
    } else {
        assert(d.take(i) =~= d);
    }
}

fn hex_char_value_of(c: char) -> (res: Option<usize>)
    ensures
        match hex_char_value(c) {
            Some(v) => res == Some(v as usize),
            None => res is None,
        },
{
    if '0' <= c && c <= '9' {
        Some(((c as u8) - 48) as usize)
    } else if 'a' <= c && c <= 'f' {
        Some(((c as u8) - 87) as usize)
    } else if 'A' <= c && c <= 'F' {
        Some(((c as u8) - 55) as usize)
    } else {
        None
    }
}

/// Parse a chunk size line as `usize::from_str_radix(_, 16)` does.
pub fn parse_hex_usize(s: &Vec<char>) -> (res: Option<usize>)
    ensures
        match parse_hex_size(s@) {
            Some(v) => res == Some(v as usize),
            None => res is None,
        },
{
    let start: usize = if s.len() > 0 && s[0] == '+' {
        1
    } else {
        0
    };
    let ghost d = if s@.len() > 0 && s@[0] == '+' {
        s@.skip(1)
    } else {
        s@
    };
    assert(d =~= s@.skip(start as int));
    if start == s.len() {
        assert(parse_hex_size(s@) is None);
        return None;
    }
    let mut acc: usize = 0;
    let mut i = start;
    proof {
        assert(d.take(0) =~= Seq::<char>::empty());
    }
    while i < s.len()
        invariant
            start <= i <= s@.len(),
            d == s@.skip(start as int),
            d == (if s@.len() > 0 && s@[0] == '+' {
                s@.skip(1)
            } else {
                s@
            }),
            acc == hex_digits_value(d.take(i - start)),
            all_hex(d.take(i - start)),
        decreases s@.len() - i,
    {
        let c = s[i];
        assert(d[i - start] == c);
        let v = match hex_char_value_of(c) {
            Some(v) => v,
            None => {
                assert(hex_char_value(d[i - start]) is None);
                assert(!all_hex(d));
                assert(parse_hex_size(s@) is None);
                return None;
            },
        };
        assert(d.take(i - start + 1).drop_last() =~= d.take(i - start));
        proof {
            assert(all_hex(d.take(i - start + 1))) by {
                assert forall|k: int| 0 <= k < d.take(i - start + 1).len() implies (
                #[trigger] hex_char_value(d.take(i - start + 1)[k])) is Some by {
                    if k < i - start {
                        assert(d.take(i - start + 1)[k] == d.take(i - start)[k]);
                    }
                }
            }
        }
        assert(hex_char_value(c) == Some(v as nat));
        assert(hex_digits_value(d.take(i - start + 1)) == hex_digits_value(d.take(i - start)) * 16
            + v);
        if acc > (usize::MAX - v) / 16 {
            proof {
                assert(acc * 16 + v > usize::MAX) by (nonlinear_arith)
                    requires
                        acc > (usize::MAX - v) / 16,
                        v < 16,
                ;
                if all_hex(d) {
                    lemma_hex_value_grows(d, i - start + 1);
                    assert(hex_digits_value(d) > usize::MAX);
                }
                assert(parse_hex_size(s@) is None);
            }
            return None;
        }
        assert(acc * 16 + v <= usize::MAX) by (nonlinear_arith)
            requires
                acc <= (usize::MAX - v) / 16,
                v < 16,
        ;
        acc = acc * 16 + v;
        i += 1;
    }
    assert(d.take(i - start) =~= d);
    Some(acc)
}

/// `b` without its leading `\r\n` pairs.
pub open spec fn skip_crlfs(b: Seq<u8>) -> Seq<u8>
    decreases b.len(),
{
    if b.len() >= 2 && b[0] == 13 && b[1] == 10 {
        skip_crlfs(b.skip(2))
    } else {
        b
    }
}

/// The index of the first `\r\n` in `b`.
pub open spec fn find_crlf(b: Seq<u8>) -> Option<int>
    decreases b.len(),
{
    if b.len() < 2 {
        None
    } else if b[0] == 13 && b[1] == 10 {
        Some(0)
    } else {
        match find_crlf(b.skip(1)) {
            Some(i) => Some(i + 1),
            None => None,
        }
    }
}

pub proof fn lemma_find_crlf_bound(b: Seq<u8>)
    ensures
        find_crlf(b) matches Some(i) ==> 0 <= i && i + 2 <= b.len() && b[i] == 13 && b[i + 1]
            == 10,
    decreases b.len(),
{
    if b.len() >= 2 && !(b[0] == 13 && b[1] == 10) {
        lemma_find_crlf_bound(b.skip(1));
    }
}

/// The size of a chunk from its size line: the line read as text, trimmed,
/// and parsed as hexadecimal.
pub open spec fn chunk_size(line: Seq<u8>) -> Option<nat> {
    if valid_utf8(line) {
        parse_hex_size(trim_ws(decode_utf8(line)))
    } else {
        None
    }
}

/// The data of a chunked body, as bytes: after any `\r\n` pairs, a size line
/// ends at the next `\r\n`; a size that does not parse, or zero, or a missing
/// line ends the body; a chunk that runs past the end contributes what there
/// is and ends the body.
pub open spec fn chunked_data(rem: Seq<u8>) -> Seq<u8>
    decreases rem.len(),
{
    let t = skip_crlfs(rem);
    match find_crlf(t) {
        None => Seq::<u8>::empty(),
        Some(le) => match chunk_size(t.take(le)) {
            None => Seq::<u8>::empty(),
            Some(size) => if size == 0 {
                Seq::<u8>::empty()
            } else if le + 2 + size <= t.len() {
                proof {
                    lemma_skip_crlfs_len(rem);
                    lemma_find_crlf_bound(t);
                }
                t.subrange(le + 2, le + 2 + size) + chunked_data(t.skip(le + 2 + size))
            } else {
                proof {
                    lemma_find_crlf_bound(t);
                }
                t.skip(le + 2)
            },
        },
    }
}

pub proof fn lemma_skip_crlfs_len(b: Seq<u8>)
    ensures
        skip_crlfs(b).len() <= b.len(),
        skip_crlfs(b) == b.skip(b.len() - skip_crlfs(b).len()),
    decreases b.len(),
{
    if b.len() >= 2 && b[0] == 13 && b[1] == 10 {
        lemma_skip_crlfs_len(b.skip(2));
        assert(b.skip(2).skip(b.skip(2).len() - skip_crlfs(b.skip(2)).len()) =~= b.skip(
            b.len() - skip_crlfs(b).len(),
        ));
    } else {
        assert(b.skip(0) =~= b);
    }
}

proof fn lemma_find_crlf_after(p: Seq<u8>, rest: Seq<u8>)
    requires
        forall|k: int| 0 <= k < p.len() ==> #[trigger] p[k] != 13,
    ensures
        find_crlf(p + seq![13u8, 10u8] + rest) == Some(p.len() as int),
    decreases p.len(),
{
    let b = p + seq![13u8, 10u8] + rest;
    if p.len() == 0 {
        assert(b[0] == 13 && b[1] == 10);
    } else {
        assert(b[0] == p[0]);
        assert(b.skip(1) =~= p.skip(1) + seq![13u8, 10u8] + rest);
        assert forall|k: int| 0 <= k < p.skip(1).len() implies #[trigger] p.skip(1)[k] != 13 by {
            assert(p.skip(1)[k] == p[k + 1]);
        }
        lemma_find_crlf_after(p.skip(1), rest);
    }
}

proof fn lemma_hex_text_bytes(t: Seq<char>)
    requires
        all_hex(t),
    ensures
        vstd::utf8::is_ascii_chars(t),
        vstd::utf8::encode_utf8(t).len() == t.len(),
        forall|k: int| 0 <= k < t.len() ==> #[trigger] vstd::utf8::encode_utf8(t)[k] != 13,
        valid_utf8(vstd::utf8::encode_utf8(t)),
        decode_utf8(vstd::utf8::encode_utf8(t)) == t,
{
    assert forall|i: int| 0 <= i < t.len() implies '\0' <= #[trigger] t[i] <= '\u{7f}' by {
        assert(hex_char_value(t[i]) is Some);
    }
    vstd::utf8::is_ascii_chars_encode_utf8(t);
    assert forall|k: int| 0 <= k < t.len() implies #[trigger] vstd::utf8::encode_utf8(t)[k] != 13 by {
        assert(hex_char_value(t[k]) is Some);
        assert(t[k] as u8 == vstd::utf8::encode_utf8(t)[k]);
    }
    vstd::utf8::encode_utf8_valid_utf8(t);
    vstd::utf8::encode_utf8_decode_utf8(t);
}

/// A body sent as one chunk (its size in hexadecimal, a line break, the
/// data, a line break) and then the last chunk (`0` and an empty line)
/// decodes to the data.
pub proof fn lemma_single_chunk(size_text: Seq<char>, data: Seq<u8>)
    requires
        size_text.len() > 0,
        all_hex(size_text),
        hex_digits_value(size_text) == data.len(),
        0 < data.len() <= usize::MAX,
    ensures
        chunked_data(vstd::utf8::encode_utf8(size_text) + seq![13u8, 10u8] + data + seq![
            13u8,
            10u8,
            48u8,
            13u8,
            10u8,
            13u8,
            10u8,
        ]) == data,
{
    let e = vstd::utf8::encode_utf8(size_text);
    let tail = seq![13u8, 10u8, 48u8, 13u8, 10u8, 13u8, 10u8];
    let b = e + seq![13u8, 10u8] + data + tail;
    lemma_hex_text_bytes(size_text);
    assert(b[0] == e[0]);
    assert(skip_crlfs(b) == b);
    assert(b =~= e + seq![13u8, 10u8] + (data + tail));
    lemma_find_crlf_after(e, data + tail);
    assert(b.take(e.len() as int) =~= e);
    assert(hex_char_value(size_text[0]) is Some);
    assert(trim_start_ws(size_text) == size_text);
    assert(hex_char_value(size_text.last()) is Some);
    assert(trim_ws(size_text) == size_text);
    assert(size_text[0] != '+');
    assert(chunk_size(e) == Some(data.len()));
    let le = e.len() as int;
    assert(b.subrange(le + 2, le + 2 + data.len()) =~= data);
    assert(b.skip(le + 2 + data.len()) =~= tail);
    // The last chunk.
    let zero = seq!['0'];
    assert(hex_char_value(zero[0]) is Some);
    lemma_hex_text_bytes(zero);
    assert(zero[0] == '0');
    assert(('0' as u8) == 48u8);
    assert(('0' as int) == 48);
    vstd::utf8::is_ascii_chars_encode_utf8(zero);
    assert(vstd::utf8::encode_utf8(zero) =~= seq![48u8]) by {
        assert(zero[0] as u8 == vstd::utf8::encode_utf8(zero)[0]);
    }
    let t2 = tail.skip(2);
    assert(t2 =~= seq![48u8] + seq![13u8, 10u8] + seq![13u8, 10u8]);
    assert(tail.skip(2).skip(0) =~= t2);
    assert(skip_crlfs(t2) == t2);
    assert(skip_crlfs(tail) == skip_crlfs(t2));
    lemma_find_crlf_after(seq![48u8], seq![13u8, 10u8]);
    assert(t2.take(1) =~= seq![48u8]);
    assert(trim_start_ws(zero) == zero);
    assert(trim_ws(zero) == zero);
    assert(hex_digits_value(zero) == 0) by {
        assert(zero.drop_last() =~= Seq::<char>::empty());
        assert(zero.last() == '0');
        assert(hex_char_value('0') == Some(0nat));
        assert(hex_digits_value(Seq::<char>::empty()) == 0);
    }
    assert(chunk_size(seq![48u8]) == Some(0nat));
    assert(chunked_data(tail) == Seq::<u8>::empty());
    assert(data + Seq::<u8>::empty() =~= data);
}

/// The text of a chunked body: its data read as UTF-8, or lossily where the
/// data is not valid UTF-8 (which happens only when a chunk size cuts a
/// character in two).
pub open spec fn chunked_text(body: Seq<u8>) -> Seq<char> {
    let data = chunked_data(body);
    if valid_utf8(data) {
        decode_utf8(data)
    } else {
        utf8_lossy(data)
    }
}

fn find_crlf_from(b: &[u8], from: usize) -> (res: Option<usize>)
    requires
        from <= b@.len(),
    ensures
        match find_crlf(b@.skip(from as int)) {
            Some(i) => res == Some((from + i) as usize),
            None => res is None,
        },
{
    let mut i = from;
    proof {
        assert(b@.skip(from as int) =~= b@.skip(i as int));
    }
    while b.len() - i > 1
        invariant
            from <= i <= b@.len(),
            find_crlf(b@.skip(i as int)) matches Some(j) ==> find_crlf(b@.skip(from as int))
                == Some(i - from + j),
            find_crlf(b@.skip(i as int)) is None ==> find_crlf(b@.skip(from as int)) is None,
        decreases b@.len() - i,
    {
        let ghost rest = b@.skip(i as int);
        if b[i] == 13 && b[i + 1] == 10 {
            return Some(i);
        }
        assert(rest.skip(1) =~= b@.skip(i + 1));
        i += 1;
    }
    None
}

/// Decode a chunked transfer-encoded body.
pub fn decode_chunked(body: &str) -> (res: String)
    ensures
        res@ == chunked_text(body.spec_bytes()),
{
    let bytes = body.as_bytes();
    let mut out: Vec<u8> = Vec::new();
    let mut pos: usize = 0;
    proof {
        assert(bytes@.skip(0) =~= bytes@);
    }
    loop
        invariant_except_break
            out@ + chunked_data(bytes@.skip(pos as int)) == chunked_data(bytes@),
        invariant
            pos <= bytes@.len(),
            bytes@ == body.spec_bytes(),
        ensures
            out@ == chunked_data(bytes@),
        decreases bytes@.len() - pos,
    {
        let ghost rem = bytes@.skip(pos as int);
        let ghost before = out@;
        let start = pos;
        while bytes.len() - pos > 1 && bytes[pos] == 13 && bytes[pos + 1] == 10
            invariant
                start <= pos <= bytes@.len(),
                rem == bytes@.skip(start as int),
                skip_crlfs(bytes@.skip(pos as int)) == skip_crlfs(rem),
            decreases bytes@.len() - pos,
        {
            assert(bytes@.skip(pos as int).skip(2) =~= bytes@.skip(pos + 2));
            pos += 2;
        }
        let ghost t = bytes@.skip(pos as int);
        assert(skip_crlfs(rem) == t);
        proof {
            lemma_find_crlf_bound(t);
        }
        let le = match find_crlf_from(bytes, pos) {
            Some(i) => i,
            None => {
                assert(out@ =~= before + chunked_data(rem));
                break;
            },
        };
        let line = slice_subrange(bytes, pos, le);
        assert(line@ =~= t.take(le - pos));
        let size = match str_from_utf8(line) {
            Ok(text) => {
                let trimmed = trim_text(text);
                parse_hex_usize(&trimmed)
            },
            Err(_) => None,
        };
        let size = match size {
            Some(s) => s,
            None => {
                assert(out@ =~= before + chunked_data(rem));
                break;
            },
        };
        if size == 0 {
            assert(out@ =~= before + chunked_data(rem));
            break;
        }
        let chunk_start = le + 2;
        if size <= bytes.len() - chunk_start {
            let chunk = slice_subrange(bytes, chunk_start, chunk_start + size);
            crate::text::append_bytes(&mut out, chunk);
            proof {
                assert(chunk@ =~= t.subrange(le - pos + 2, le - pos + 2 + size));
                assert(t.skip(le - pos + 2 + size) =~= bytes@.skip(chunk_start + size));
                assert(out@ + chunked_data(bytes@.skip(chunk_start + size)) =~= before
                    + chunked_data(rem));
            }
            pos = chunk_start + size;
        } else {
            let chunk = slice_subrange(bytes, chunk_start, bytes.len());
            crate::text::append_bytes(&mut out, chunk);
            proof {
                assert(chunk@ =~= t.skip(le - pos + 2));
                assert(out@ =~= before + chunked_data(rem));
            }
            break;
        }
    }
    match str_from_utf8(out.as_slice()) {
        Ok(text) => {
            let chars = chars_of(text);
            string_of(&chars)
        },
        Err(_) => string_from_utf8_lossy(out.as_slice()),
    }
}


// ── Responses ────────────────────────────────────────

/// The first line of a text, or nothing when it has none.
pub open spec fn first_line(s: Seq<char>) -> Seq<char> {
    if text_lines(s).len() > 0 {
        text_lines(s)[0]
    } else {
        Seq::<char>::empty()
    }
}

/// The body of a response whose headers, lowercased, are `headers_lower`:
/// decoded from chunks when they announce chunked transfer encoding, as it
/// is otherwise.
pub open spec fn body_for_spec(headers_lower: Seq<char>, body: Seq<char>) -> Seq<char> {
    if contains_text(headers_lower, "transfer-encoding: chunked"@) {
        chunked_text(vstd::utf8::encode_utf8(body))
    } else {
        body
    }
}

/// The body an HTTP response text gives, or the message of its failure: its
/// headers end at the first blank line; the status line must contain `200`;
/// a body sent in chunks is decoded.
pub open spec fn http_text_body(text: Seq<char>) -> std::result::Result<Seq<char>, Seq<char>> {
    match find_text(text, "\r\n\r\n"@) {
        None => Err("malformed HTTP response"@),
        Some(i) => {
            let headers = text.take(i);
            let status = first_line(headers);
            if !contains_text(status, "200"@) {
                Err("HTTP "@ + status)
            } else {
                Ok(body_for_spec(lowercase(headers), text.skip(i + 4)))
            }
        },
    }
}

/// The body an HTTP response gives: the response read as text (lossily),
/// then as `http_text_body` says.
pub open spec fn http_body(raw: Seq<u8>) -> std::result::Result<Seq<char>, Seq<char>> {
    http_text_body(utf8_lossy(raw))
}

fn mojang_error(msg: &Vec<char>) -> (res: Error)
    ensures
        res matches Error::MojangApi(m) && m@ == msg@,
{
    Error::MojangApi(string_of(msg))
}

/// The body of a response given its lowercased headers.
pub fn body_for(headers_lower: &str, body: &str) -> (res: String)
    ensures
        res@ == body_for_spec(headers_lower@, body@),
{
    let lower_chars = chars_of(headers_lower);
    let chunked = chars_of("transfer-encoding: chunked");
    if find_text_in(&lower_chars, &chunked).is_some() {
        return decode_chunked(body);
    }
    let b = chars_of(body);
    string_of(&b)
}

/// The body of an HTTP response, given as text.
pub fn response_text_body(text: &str) -> (res: Result<String>)
    ensures
        match http_text_body(text@) {
            Ok(b) => res matches Ok(s) && s@ == b,
            Err(m) => res matches Err(Error::MojangApi(e)) && e@ == m,
        },
{
    let chars = chars_of(text);
    let blank = chars_of("\r\n\r\n");
    proof {
        reveal_strlit("\r\n\r\n");
        lemma_find_text_bound(chars@, blank@);
    }
    let i = match find_text_in(&chars, &blank) {
        Some(i) => i,
        None => {
            let msg = chars_of("malformed HTTP response");
            return Err(mojang_error(&msg));
        },
    };
    let n = chars.len();
    assert(i + 4 <= n);
    let headers = sub_chars(&chars, 0, i);
    let body = sub_chars(&chars, i + 4, n);
    assert(headers@ =~= chars@.take(i as int));
    assert(body@ =~= chars@.skip(i + 4));
    let headers_text = string_of(&headers);
    let lines = split_lines(headers_text.as_str());
    let status: Vec<char> = if lines.len() > 0 {
        proof {
            assert(lines@.map_values(|l: String| l@)[0] == lines@[0]@);
        }
        chars_of(lines[0].as_str())
    } else {
        Vec::new()
    };
    assert(status@ == first_line(headers@));
    let ok_code = chars_of("200");
    if find_text_in(&status, &ok_code).is_none() {
        let mut msg: Vec<char> = Vec::new();
        push_str(&mut msg, "HTTP ");
        push_chars(&mut msg, &status);
        return Err(mojang_error(&msg));
    }
    let lower = to_lowercase(headers_text.as_str());
    let body_text = string_of(&body);
    Ok(body_for(lower.as_str(), body_text.as_str()))
}

/// The body of a complete HTTP response.
pub fn response_body(raw: &[u8]) -> (res: Result<String>)
    ensures
        match http_body(raw@) {
            Ok(b) => res matches Ok(s) && s@ == b,
            Err(m) => res matches Err(Error::MojangApi(e)) && e@ == m,
        },
{
    let text = string_from_utf8_lossy(raw);
    response_text_body(text.as_str())
}

} // verus!
