use vstd::prelude::*;

verus! {

/// The characters of a string, in order.
pub fn chars_of(s: &str) -> (res: Vec<char>)
    ensures
        res@ == s@,
{
    broadcast use vstd::string::axiom_spec_iter;

    let mut v: Vec<char> = Vec::new();
    for c in it: s.chars()
        invariant
            v@ == it.seq().take(it.index() as int),
    {
        v.push(c);
    }
    v
}

/// A string made of the given characters (calls `String::from_iter`, which
/// collects the characters in order).
#[verifier::external_body]
pub fn string_of(chars: &Vec<char>) -> (res: String)
    ensures
        res@ == chars@,
{
    String::from_iter(chars.iter())
}

pub open spec fn digit_char(d: nat) -> char {
    (48 + d) as char
}

}

verus! {

/// The text `std::str::from_utf8` gives for the error on invalid `bytes`.
pub uninterp spec fn utf8_error_message(bytes: Seq<u8>) -> Seq<char>;

/// Calls `std::str::from_utf8`. Claims: it succeeds exactly on valid UTF-8,
/// and then the string's characters are the decoded bytes; on failure the
/// error's display text is a function of the bytes alone.
#[verifier::external_body]
pub fn str_from_utf8<'a>(bytes: &'a [u8]) -> (res: Result<&'a str, String>)
    ensures
        match res {
            Ok(s) => vstd::utf8::valid_utf8(bytes@) && s@ == vstd::utf8::decode_utf8(bytes@),
            Err(m) => !vstd::utf8::valid_utf8(bytes@) && m@ == utf8_error_message(bytes@),
        },
{
    std::str::from_utf8(bytes).map_err(|e| e.to_string())
}

/// Append every byte of `data` to `buf`.
pub fn append_bytes(buf: &mut Vec<u8>, data: &[u8])
    ensures
        final(buf)@ == old(buf)@ + data@,
{
    let mut i: usize = 0;
    while i < data.len()
        invariant
            i <= data@.len(),
            buf@ == old(buf)@ + data@.take(i as int),
        decreases data@.len() - i,
    {
        buf.push(data[i]);
        assert(data@.take(i + 1) == data@.take(i as int).push(data@[i as int]));
        i += 1;
    }
    assert(data@.take(data@.len() as int) == data@);
}

} // verus!

verus! {

/// The decimal digits of `n`, most significant first, without leading zeros.
pub open spec fn dec(n: nat) -> Seq<char>
    decreases n,
{
    if n < 10 {
        seq![digit_char(n)]
    } else {
        dec(n / 10).push(digit_char(n % 10))
    }
}

/// The decimal text of an integer, with a leading `-` when negative.
pub open spec fn dec_int(n: int) -> Seq<char> {
    if n < 0 {
        seq!['-'] + dec((-n) as nat)
    } else {
        dec(n as nat)
    }
}

/// Decimal text of an unsigned value.
pub fn decimal_u128(n: u128) -> (res: Vec<char>)
    ensures
        res@ == dec(n as nat),
    decreases n,
{
    if n < 10 {
        let mut v: Vec<char> = Vec::new();
        v.push(((48u8 + n as u8) as char));
        v
    } else {
        let mut v = decimal_u128(n / 10);
        v.push(((48u8 + (n % 10) as u8) as char));
        v
    }
}

/// Decimal text of a signed value, as `Display` writes it.
pub fn decimal_i64(n: i64) -> (res: Vec<char>)
    ensures
        res@ == dec_int(n as int),
{
    if n < 0 {
        let mag: u128 = (0i128 - n as i128) as u128;
        let digits = decimal_u128(mag);
        let mut v: Vec<char> = Vec::new();
        v.push('-');
        let mut i: usize = 0;
        while i < digits.len()
            invariant
                i <= digits@.len(),
                v@ == seq!['-'] + digits@.take(i as int),
            decreases digits@.len() - i,
        {
            v.push(digits[i]);
            assert(digits@.take(i + 1) == digits@.take(i as int).push(digits@[i as int]));
            i += 1;
        }
        assert(digits@.take(digits@.len() as int) == digits@);
        v
    } else {
        decimal_u128(n as u128)
    }
}

/// Append every character of `more` to `out`.
pub fn push_chars(out: &mut Vec<char>, more: &Vec<char>)
    ensures
        final(out)@ == old(out)@ + more@,
{
    let mut i: usize = 0;
    while i < more.len()
        invariant
            i <= more@.len(),
            out@ == old(out)@ + more@.take(i as int),
        decreases more@.len() - i,
    {
        out.push(more[i]);
        assert(more@.take(i + 1) == more@.take(i as int).push(more@[i as int]));
        i += 1;
    }
    assert(more@.take(more@.len() as int) == more@);
}

/// Append the characters of a string slice to `out`.
pub fn push_str(out: &mut Vec<char>, more: &str)
    ensures
        final(out)@ == old(out)@ + more@,
{
    let v = chars_of(more);
    push_chars(out, &v);
}

} // verus!

verus! {

/// Whether two character sequences are equal.
pub fn chars_eq(a: &Vec<char>, b: &Vec<char>) -> (res: bool)
    ensures
        res == (a@ == b@),
{
    if a.len() != b.len() {
        return false;
    }
    let mut i: usize = 0;
    while i < a.len()
        invariant
            i <= a@.len(),
            a@.len() == b@.len(),
            forall|j: int| 0 <= j < i ==> a@[j] == b@[j],
        decreases a@.len() - i,
    {
        if a[i] != b[i] {
            return false;
        }
        i += 1;
    }
    assert(a@ =~= b@);
    true
}

/// Whether the characters are those of the literal `lit`.
pub fn is_lit(a: &Vec<char>, lit: &str) -> (res: bool)
    ensures
        res == (a@ == lit@),
{
    let b = chars_of(lit);
    chars_eq(a, &b)
}

/// Whether `s` begins with `prefix`.
pub open spec fn starts_with(s: Seq<char>, prefix: Seq<char>) -> bool {
    prefix.len() <= s.len() && s.take(prefix.len() as int) == prefix
}

/// The value of a hexadecimal digit byte.
pub open spec fn hex_value(b: u8) -> Option<u8> {
    if 48 <= b <= 57 {
        Some((b - 48) as u8)
    } else if 97 <= b <= 102 {
        Some((b - 87) as u8)
    } else if 65 <= b <= 70 {
        Some((b - 55) as u8)
    } else {
        None
    }
}

pub fn hex_value_of(b: u8) -> (res: Option<u8>)
    ensures
        res == hex_value(b),
{
    if 48 <= b && b <= 57 {
        Some(b - 48)
    } else if 97 <= b && b <= 102 {
        Some(b - 87)
    } else if 65 <= b && b <= 70 {
        Some(b - 55)
    } else {
        None
    }
}

} // verus!

verus! {

/// `n` copies of `c`.
pub open spec fn repeat(c: char, n: nat) -> Seq<char> {
    Seq::new(n, |_i: int| c)
}

pub fn repeat_char(c: char, n: usize) -> (res: Vec<char>)
    ensures
        res@ == repeat(c, n as nat),
{
    let mut v: Vec<char> = Vec::new();
    let mut i: usize = 0;
    while i < n
        invariant
            i <= n,
            v@ == repeat(c, i as nat),
        decreases n - i,
    {
        v.push(c);
        assert(v@ =~= repeat(c, (i + 1) as nat));
        i += 1;
    }
    v
}

} // verus!

verus! {

/// `s` without one trailing carriage return.
pub open spec fn strip_cr(s: Seq<char>) -> Seq<char> {
    if s.len() > 0 && s.last() == '\r' {
        s.drop_last()
    } else {
        s
    }
}

/// The index of the first `c` in `s`, if any.
pub open spec fn find_char(s: Seq<char>, c: char) -> Option<int>
    decreases s.len(),
{
    if s.len() == 0 {
        None
    } else if s[0] == c {
        Some(0)
    } else {
        match find_char(s.skip(1), c) {
            Some(i) => Some(i + 1),
            None => None,
        }
    }
}

/// The lines of `s` as `str::lines` gives them: split at each `\n`, a `\r`
/// just before a `\n` dropped, no empty line after a final `\n`.
pub open spec fn text_lines(s: Seq<char>) -> Seq<Seq<char>>
    decreases s.len(),
{
    if s.len() == 0 {
        seq![]
    } else {
        match find_char(s, '\n') {
            Some(i) => {
                proof {
                    lemma_find_char_bound(s, '\n');
                }
                seq![strip_cr(s.take(i))] + text_lines(s.skip(i + 1))
            },
            None => seq![s],
        }
    }
}

pub proof fn lemma_find_char_bound(s: Seq<char>, c: char)
    ensures
        find_char(s, c) matches Some(i) ==> 0 <= i < s.len() && s[i] == c && forall|j: int|
            0 <= j < i ==> s[j] != c,
        find_char(s, c) is None ==> forall|j: int| 0 <= j < s.len() ==> s[j] != c,
    decreases s.len(),
{
    if s.len() > 0 {
        lemma_find_char_bound(s.skip(1), c);
        if s[0] != c {
            assert forall|j: int| 1 <= j < s.len() implies s[j] == s.skip(1)[j - 1] by {}
        }
    }
}

/// Find the first `c` at or after `from`.
pub fn find_char_from(s: &Vec<char>, c: char, from: usize) -> (res: Option<usize>)
    requires
        from <= s@.len(),
    ensures
        match find_char(s@.skip(from as int), c) {
            Some(i) => res == Some((from + i) as usize),
            None => res is None,
        },
{
    let mut i = from;
    while i < s.len()
        invariant
            from <= i <= s@.len(),
            forall|j: int| from <= j < i ==> s@[j] != c,
        decreases s@.len() - i,
    {
        if s[i] == c {
            proof {
                lemma_find_char_bound(s@.skip(from as int), c);
                match find_char(s@.skip(from as int), c) {
                    Some(k) => {
                        assert(s@.skip(from as int)[i - from] == c);
                    },
                    None => {
                        assert(s@.skip(from as int)[i - from] == c);
                    },
                }
            }
            return Some(i);
        }
        i += 1;
    }
    proof {
        lemma_find_char_bound(s@.skip(from as int), c);
        match find_char(s@.skip(from as int), c) {
            Some(k) => {
                assert(s@[from + k] == c);
            },
            None => {},
        }
    }
    None
}

/// The characters of `s` from `start` up to `end`.
pub fn sub_chars(s: &Vec<char>, start: usize, end: usize) -> (res: Vec<char>)
    requires
        start <= end <= s@.len(),
    ensures
        res@ == s@.subrange(start as int, end as int),
{
    let mut out: Vec<char> = Vec::new();
    let mut i = start;
    while i < end
        invariant
            start <= i <= end,
            end <= s@.len(),
            out@ == s@.subrange(start as int, i as int),
        decreases end - i,
    {
        out.push(s[i]);
        assert(s@.subrange(start as int, i + 1) =~= s@.subrange(start as int, i as int).push(s@[i as int]));
        i += 1;
    }
    out
}

/// Split text into lines the way `str::lines` does.
pub fn split_lines(s: &str) -> (res: Vec<String>)
    ensures
        res@.map_values(|l: String| l@) == text_lines(s@),
{
    let chars = chars_of(s);
    let mut out: Vec<String> = Vec::new();
    let mut start: usize = 0;
    proof {
        assert(chars@.skip(0) =~= chars@);
        assert(out@.map_values(|l: String| l@) + text_lines(chars@.skip(0)) =~= text_lines(s@));
    }
    while start < chars.len()
        invariant
            start <= chars@.len(),
            chars@ == s@,
            out@.map_values(|l: String| l@) + text_lines(chars@.skip(start as int)) == text_lines(s@),
        decreases chars@.len() - start,
    {
        let ghost rest = chars@.skip(start as int);
        proof {
            lemma_find_char_bound(rest, '\n');
        }
        match find_char_from(&chars, '\n', start) {
            Some(nl) => {
                let mut end = nl;
                if end > start && chars[end - 1] == '\r' {
                    end = end - 1;
                }
                let line = sub_chars(&chars, start, end);
                proof {
                    let i = find_char(rest, '\n').unwrap();
                    assert(line@ =~= strip_cr(rest.take(i)));
                    assert(rest.skip(i + 1) =~= chars@.skip(nl + 1));
                }
                let ls = string_of(&line);
                let ghost before = out@;
                out.push(ls);
                proof {
                    assert(out@.map_values(|l: String| l@) =~= before.map_values(|l: String| l@).push(line@));
                    assert(out@.map_values(|l: String| l@) + text_lines(chars@.skip(nl + 1)) =~= before.map_values(|l: String| l@) + text_lines(rest));
                }
                start = nl + 1;
            },
            None => {
                let line = sub_chars(&chars, start, chars.len());
                let ls = string_of(&line);
                let ghost before = out@;
                out.push(ls);
                proof {
                    assert(line@ =~= rest);
                    assert(chars@.skip(chars@.len() as int) =~= Seq::<char>::empty());
                    assert(out@.map_values(|l: String| l@) =~= before.map_values(|l: String| l@).push(line@));
                }
                start = chars.len();
            },
        }
    }
    proof {
        assert(chars@.skip(start as int) =~= Seq::<char>::empty());
        assert(out@.map_values(|l: String| l@) + Seq::<Seq<char>>::empty() =~= out@.map_values(|l: String| l@));
    }
    out
}

} // verus!

verus! {

/// The index of the first `x` in `b`, if any.
pub open spec fn find_byte(b: Seq<u8>, x: u8) -> Option<int>
    decreases b.len(),
{
    if b.len() == 0 {
        None
    } else if b[0] == x {
        Some(0)
    } else {
        match find_byte(b.skip(1), x) {
            Some(i) => Some(i + 1),
            None => None,
        }
    }
}

pub proof fn lemma_find_byte_bound(b: Seq<u8>, x: u8)
    ensures
        find_byte(b, x) matches Some(i) ==> 0 <= i < b.len() && b[i] == x && forall|j: int|
            0 <= j < i ==> b[j] != x,
        find_byte(b, x) is None ==> forall|j: int| 0 <= j < b.len() ==> b[j] != x,
    decreases b.len(),
{
    if b.len() > 0 {
        lemma_find_byte_bound(b.skip(1), x);
        if b[0] != x {
            assert forall|j: int| 1 <= j < b.len() implies b[j] == b.skip(1)[j - 1] by {}
        }
    }
}

proof fn lemma_find_byte_unique(b: Seq<u8>, x: u8, i: int)
    requires
        0 <= i < b.len(),
        b[i] == x,
        forall|j: int| 0 <= j < i ==> b[j] != x,
    ensures
        find_byte(b, x) == Some(i),
    decreases b.len(),
{
    if i > 0 {
        assert forall|j: int| 0 <= j < i - 1 implies b.skip(1)[j] != x by {
            assert(b.skip(1)[j] == b[j + 1]);
        }
        lemma_find_byte_unique(b.skip(1), x, i - 1);
    }
}

proof fn lemma_find_byte_none(b: Seq<u8>, x: u8)
    requires
        forall|j: int| 0 <= j < b.len() ==> b[j] != x,
    ensures
        find_byte(b, x) is None,
    decreases b.len(),
{
    if b.len() > 0 {
        assert forall|j: int| 0 <= j < b.len() - 1 implies b.skip(1)[j] != x by {
            assert(b.skip(1)[j] == b[j + 1]);
        }
        lemma_find_byte_none(b.skip(1), x);
    }
}

/// Find the first `x` in `b`.
pub fn find_byte_in(b: &[u8], x: u8) -> (res: Option<usize>)
    ensures
        match find_byte(b@, x) {
            Some(i) => res == Some(i as usize),
            None => res is None,
        },
{
    let mut i: usize = 0;
    while i < b.len()
        invariant
            i <= b@.len(),
            forall|j: int| 0 <= j < i ==> b@[j] != x,
        decreases b@.len() - i,
    {
        if b[i] == x {
            proof {
                lemma_find_byte_unique(b@, x, i as int);
            }
            return Some(i);
        }
        i += 1;
    }
    proof {
        lemma_find_byte_none(b@, x);
    }
    None
}

} // verus!

verus! {

/// The index of the last `c` in `s`, if any.
pub open spec fn rfind_char(s: Seq<char>, c: char) -> Option<int>
    decreases s.len(),
{
    if s.len() == 0 {
        None
    } else if s.last() == c {
        Some(s.len() - 1)
    } else {
        rfind_char(s.drop_last(), c)
    }
}

pub proof fn lemma_rfind_char_bound(s: Seq<char>, c: char)
    ensures
        rfind_char(s, c) matches Some(i) ==> 0 <= i < s.len() && s[i] == c && forall|j: int|
            i < j < s.len() ==> s[j] != c,
        rfind_char(s, c) is None ==> forall|j: int| 0 <= j < s.len() ==> s[j] != c,
    decreases s.len(),
{
    if s.len() > 0 {
        lemma_rfind_char_bound(s.drop_last(), c);
        assert forall|j: int| 0 <= j < s.len() - 1 implies s.drop_last()[j] == s[j] by {}
    }
}

/// The pieces `str::splitn(n, sep)` gives: at most `n` pieces, split at the
/// first `n - 1` separators, the last piece holding the rest.
pub open spec fn split_n(s: Seq<char>, n: nat, sep: char) -> Seq<Seq<char>>
    decreases n,
{
    if n <= 1 {
        seq![s]
    } else {
        match find_char(s, sep) {
            Some(i) => seq![s.take(i)] + split_n(s.skip(i + 1), (n - 1) as nat, sep),
            None => seq![s],
        }
    }
}

/// The pieces `str::rsplitn(n, sep)` gives, last piece first: split at the
/// last `n - 1` separators, the final piece holding what comes before them.
pub open spec fn rsplit_n(s: Seq<char>, n: nat, sep: char) -> Seq<Seq<char>>
    decreases n,
{
    if n <= 1 {
        seq![s]
    } else {
        match rfind_char(s, sep) {
            Some(i) => seq![s.skip(i + 1)] + rsplit_n(s.take(i), (n - 1) as nat, sep),
            None => seq![s],
        }
    }
}

/// The pieces `str::split(sep)` gives: `s` cut at every separator.
pub open spec fn split_all(s: Seq<char>, sep: char) -> Seq<Seq<char>>
    decreases s.len(),
{
    match find_char(s, sep) {
        Some(i) => {
            proof {
                lemma_find_char_bound(s, sep);
            }
            seq![s.take(i)] + split_all(s.skip(i + 1), sep)
        },
        None => seq![s],
    }
}

/// The views of a list of character vectors.
pub open spec fn pieces_view(v: Seq<Vec<char>>) -> Seq<Seq<char>> {
    v.map_values(|p: Vec<char>| p@)
}

pub proof fn lemma_rfind_char_at(s: Seq<char>, c: char, k: int)
    requires
        0 <= k < s.len(),
        s[k] == c,
        forall|j: int| k < j < s.len() ==> s[j] != c,
    ensures
        rfind_char(s, c) == Some(k),
    decreases s.len(),
{
    if s.last() != c {
        lemma_rfind_char_at(s.drop_last(), c, k);
    }
}

proof fn lemma_rfind_char_absent(s: Seq<char>, c: char)
    requires
        forall|j: int| 0 <= j < s.len() ==> s[j] != c,
    ensures
        rfind_char(s, c) is None,
    decreases s.len(),
{
    if s.len() > 0 {
        lemma_rfind_char_absent(s.drop_last(), c);
    }
}

/// Find the last `c` before `end`.
pub fn rfind_char_before(s: &Vec<char>, c: char, end: usize) -> (res: Option<usize>)
    requires
        end <= s@.len(),
    ensures
        match rfind_char(s@.take(end as int), c) {
            Some(i) => res == Some(i as usize),
            None => res is None,
        },
{
    let ghost t = s@.take(end as int);
    let mut i = end;
    while i > 0
        invariant
            i <= end <= s@.len(),
            t == s@.take(end as int),
            forall|j: int| i <= j < end ==> s@[j] != c,
        decreases i,
    {
        if s[i - 1] == c {
            proof {
                lemma_rfind_char_at(t, c, i - 1);
            }
            return Some(i - 1);
        }
        i -= 1;
    }
    proof {
        lemma_rfind_char_absent(t, c);
    }
    None
}

/// Split as `str::splitn(n, sep)` does.
pub fn splitn_chars(s: &Vec<char>, n: usize, sep: char) -> (res: Vec<Vec<char>>)
    requires
        n >= 1,
    ensures
        pieces_view(res@) == split_n(s@, n as nat, sep),
{
    let mut parts: Vec<Vec<char>> = Vec::new();
    let mut pos: usize = 0;
    let mut k: usize = n;
    let len = s.len();
    proof {
        assert(s@.skip(0) =~= s@);
    }
    while k > 1
        invariant
            len == s@.len(),
            pos <= s@.len(),
            1 <= k <= n,
            pieces_view(parts@) + split_n(s@.skip(pos as int), k as nat, sep) == split_n(
                s@,
                n as nat,
                sep,
            ),
        decreases k,
    {
        let ghost rest = s@.skip(pos as int);
        let ghost before = parts@;
        proof {
            lemma_find_char_bound(rest, sep);
        }
        match find_char_from(s, sep, pos) {
            Some(i) => {
                proof {
                    let j = find_char(rest, sep).unwrap();
                    assert(j < rest.len());
                    assert(i == pos + j);
                }
                let piece = sub_chars(s, pos, i);
                parts.push(piece);
                proof {
                    let j = find_char(rest, sep).unwrap();
                    assert(piece@ =~= rest.take(j));
                    assert(rest.skip(j + 1) =~= s@.skip(i + 1));
                    assert(pieces_view(parts@) =~= pieces_view(before).push(piece@));
                    assert(pieces_view(parts@) + split_n(s@.skip(i + 1), (k - 1) as nat, sep)
                        =~= pieces_view(before) + split_n(rest, k as nat, sep));
                }
                pos = i + 1;
                k = k - 1;
            },
            None => {
                let piece = sub_chars(s, pos, s.len());
                parts.push(piece);
                proof {
                    assert(piece@ =~= rest);
                    assert(pieces_view(parts@) =~= pieces_view(before).push(piece@));
                    assert(pieces_view(parts@) =~= pieces_view(before) + split_n(
                        rest,
                        k as nat,
                        sep,
                    ));
                }
                return parts;
            },
        }
    }
    let ghost before = parts@;
    let piece = sub_chars(s, pos, s.len());
    parts.push(piece);
    proof {
        assert(piece@ =~= s@.skip(pos as int));
        assert(pieces_view(parts@) =~= pieces_view(before).push(piece@));
        assert(pieces_view(parts@) =~= pieces_view(before) + split_n(
            s@.skip(pos as int),
            k as nat,
            sep,
        ));
    }
    parts
}

/// Split as `str::rsplitn(n, sep)` does.
pub fn rsplitn_chars(s: &Vec<char>, n: usize, sep: char) -> (res: Vec<Vec<char>>)
    requires
        n >= 1,
    ensures
        pieces_view(res@) == rsplit_n(s@, n as nat, sep),
{
    let mut parts: Vec<Vec<char>> = Vec::new();
    let mut end: usize = s.len();
    let mut k: usize = n;
    proof {
        assert(s@.take(s@.len() as int) =~= s@);
    }
    while k > 1
        invariant
            end <= s@.len(),
            1 <= k <= n,
            pieces_view(parts@) + rsplit_n(s@.take(end as int), k as nat, sep) == rsplit_n(
                s@,
                n as nat,
                sep,
            ),
        decreases k,
    {
        let ghost rest = s@.take(end as int);
        let ghost before = parts@;
        proof {
            lemma_rfind_char_bound(rest, sep);
        }
        match rfind_char_before(s, sep, end) {
            Some(i) => {
                let piece = sub_chars(s, i + 1, end);
                parts.push(piece);
                proof {
                    assert(piece@ =~= rest.skip(i + 1));
                    assert(rest.take(i as int) =~= s@.take(i as int));
                    assert(pieces_view(parts@) =~= pieces_view(before).push(piece@));
                    assert(pieces_view(parts@) + rsplit_n(s@.take(i as int), (k - 1) as nat, sep)
                        =~= pieces_view(before) + rsplit_n(rest, k as nat, sep));
                }
                end = i;
                k = k - 1;
            },
            None => {
                let piece = sub_chars(s, 0, end);
                parts.push(piece);
                proof {
                    assert(piece@ =~= rest);
                    assert(pieces_view(parts@) =~= pieces_view(before).push(piece@));
                    assert(pieces_view(parts@) =~= pieces_view(before) + rsplit_n(
                        rest,
                        k as nat,
                        sep,
                    ));
                }
                return parts;
            },
        }
    }
    let ghost before = parts@;
    let piece = sub_chars(s, 0, end);
    parts.push(piece);
    proof {
        assert(piece@ =~= s@.take(end as int));
        assert(pieces_view(parts@) =~= pieces_view(before).push(piece@));
        assert(pieces_view(parts@) =~= pieces_view(before) + rsplit_n(
            s@.take(end as int),
            k as nat,
            sep,
        ));
    }
    parts
}

/// Split as `str::split(sep)` does.
pub fn split_chars(s: &Vec<char>, sep: char) -> (res: Vec<Vec<char>>)
    ensures
        pieces_view(res@) == split_all(s@, sep),
{
    let mut parts: Vec<Vec<char>> = Vec::new();
    let mut pos: usize = 0;
    let len = s.len();
    proof {
        assert(s@.skip(0) =~= s@);
    }
    loop
        invariant
            len == s@.len(),
            pos <= s@.len(),
            pieces_view(parts@) + split_all(s@.skip(pos as int), sep) == split_all(s@, sep),
        decreases s@.len() - pos,
    {
        let ghost rest = s@.skip(pos as int);
        let ghost before = parts@;
        proof {
            lemma_find_char_bound(rest, sep);
        }
        match find_char_from(s, sep, pos) {
            Some(i) => {
                proof {
                    let j = find_char(rest, sep).unwrap();
                    assert(j < rest.len());
                    assert(i == pos + j);
                }
                let piece = sub_chars(s, pos, i);
                parts.push(piece);
                proof {
                    let j = find_char(rest, sep).unwrap();
                    assert(piece@ =~= rest.take(j));
                    assert(rest.skip(j + 1) =~= s@.skip(i + 1));
                    assert(pieces_view(parts@) =~= pieces_view(before).push(piece@));
                    assert(pieces_view(parts@) + split_all(s@.skip(i + 1), sep) =~= pieces_view(
                        before,
                    ) + split_all(rest, sep));
                }
                pos = i + 1;
            },
            None => {
                let piece = sub_chars(s, pos, s.len());
                parts.push(piece);
                proof {
                    assert(piece@ =~= rest);
                    assert(pieces_view(parts@) =~= pieces_view(before).push(piece@));
                    assert(pieces_view(parts@) =~= pieces_view(before) + split_all(rest, sep));
                }
                return parts;
            },
        }
    }
}

} // verus!

verus! {

/// The uppercase hexadecimal digit of `d` (below sixteen).
pub open spec fn hex_digit_upper(d: nat) -> char {
    if d < 10 {
        (48 + d) as char
    } else {
        (55 + d) as char
    }
}

/// A byte as two uppercase hexadecimal digits, as `{:02X}` writes it.
pub open spec fn hex2_upper(b: u8) -> Seq<char> {
    seq![hex_digit_upper((b / 16) as nat), hex_digit_upper((b % 16) as nat)]
}

fn hex_digit_upper_of(d: u8) -> (res: char)
    requires
        d < 16,
    ensures
        res == hex_digit_upper(d as nat),
{
    if d < 10 {
        (48u8 + d) as char
    } else {
        (55u8 + d) as char
    }
}

/// Append a byte as two uppercase hexadecimal digits.
pub fn push_hex2_upper(out: &mut Vec<char>, b: u8)
    ensures
        final(out)@ == old(out)@ + hex2_upper(b),
{
    let hi = hex_digit_upper_of(b / 16);
    let lo = hex_digit_upper_of(b % 16);
    out.push(hi);
    out.push(lo);
    assert(out@ =~= old(out)@ + hex2_upper(b));
}

} // verus!


verus! {

/// The uppercase hexadecimal digits of `n`, most significant first, without
/// leading zeros.
pub open spec fn hex_upper(n: nat) -> Seq<char>
    decreases n,
{
    if n < 16 {
        seq![hex_digit_upper(n)]
    } else {
        hex_upper(n / 16).push(hex_digit_upper(n % 16))
    }
}

/// A number in uppercase hexadecimal, at least two digits, as `{:02X}`
/// writes it.
pub open spec fn hex_upper_min2(n: nat) -> Seq<char> {
    if n < 16 {
        seq!['0', hex_digit_upper(n)]
    } else {
        hex_upper(n)
    }
}

fn hex_upper_of(n: u32) -> (res: Vec<char>)
    ensures
        res@ == hex_upper(n as nat),
    decreases n,
{
    if n < 16 {
        let mut v: Vec<char> = Vec::new();
        v.push(hex_digit_upper_of(n as u8));
        v
    } else {
        let mut v = hex_upper_of(n / 16);
        v.push(hex_digit_upper_of((n % 16) as u8));
        v
    }
}

/// Append a number in uppercase hexadecimal, at least two digits.
pub fn push_hex_upper_min2(out: &mut Vec<char>, n: u32)
    ensures
        final(out)@ == old(out)@ + hex_upper_min2(n as nat),
{
    if n < 16 {
        out.push('0');
        out.push(hex_digit_upper_of(n as u8));
        assert(out@ =~= old(out)@ + hex_upper_min2(n as nat));
    } else {
        let digits = hex_upper_of(n);
        push_chars(out, &digits);
    }
}

} // verus!

verus! {

/// Whether `c` is white space in Unicode's sense (`char::is_whitespace`).
pub open spec fn is_whitespace(c: char) -> bool {
    ||| ('\u{9}' <= c && c <= '\u{d}')
    ||| c == ' '
    ||| c == '\u{85}'
    ||| c == '\u{a0}'
    ||| c == '\u{1680}'
    ||| ('\u{2000}' <= c && c <= '\u{200a}')
    ||| c == '\u{2028}'
    ||| c == '\u{2029}'
    ||| c == '\u{202f}'
    ||| c == '\u{205f}'
    ||| c == '\u{3000}'
}

pub open spec fn trim_start_ws(s: Seq<char>) -> Seq<char>
    decreases s.len(),
{
    if s.len() > 0 && is_whitespace(s[0]) {
        trim_start_ws(s.skip(1))
    } else {
        s
    }
}

/// `s` without the trailing characters equal to `c`.
pub open spec fn trim_end_char(s: Seq<char>, c: char) -> Seq<char>
    decreases s.len(),
{
    if s.len() > 0 && s.last() == c {
        trim_end_char(s.drop_last(), c)
    } else {
        s
    }
}

pub open spec fn trim_end_ws(s: Seq<char>) -> Seq<char>
    decreases s.len(),
{
    if s.len() > 0 && is_whitespace(s.last()) {
        trim_end_ws(s.drop_last())
    } else {
        s
    }
}

/// `s` without leading and trailing white space, as `str::trim` gives it.
pub open spec fn trim_ws(s: Seq<char>) -> Seq<char> {
    trim_end_ws(trim_start_ws(s))
}

fn is_whitespace_char(c: char) -> (res: bool)
    ensures
        res == is_whitespace(c),
{
    ('\u{9}' <= c && c <= '\u{d}') || c == ' ' || c == '\u{85}' || c == '\u{a0}' || c == '\u{1680}'
        || ('\u{2000}' <= c && c <= '\u{200a}') || c == '\u{2028}' || c == '\u{2029}' || c
        == '\u{202f}' || c == '\u{205f}' || c == '\u{3000}'
}

/// `s` without leading and trailing white space.
pub fn trim_text(s: &str) -> (res: Vec<char>)
    ensures
        res@ == trim_ws(s@),
{
    let chars = chars_of(s);
    let mut i: usize = 0;
    proof {
        assert(chars@.skip(0) =~= chars@);
    }
    while i < chars.len() && is_whitespace_char(chars[i])
        invariant
            i <= chars@.len(),
            chars@ == s@,
            trim_start_ws(chars@.skip(i as int)) == trim_start_ws(s@),
        decreases chars@.len() - i,
    {
        assert(chars@.skip(i as int).skip(1) =~= chars@.skip(i + 1));
        i += 1;
    }
    let ghost start = chars@.skip(i as int);
    assert(trim_start_ws(start) == start);
    let mut j: usize = chars.len();
    proof {
        assert(start.take(start.len() as int) =~= start);
    }
    while j > i && is_whitespace_char(chars[j - 1])
        invariant
            i <= j <= chars@.len(),
            start == chars@.skip(i as int),
            trim_end_ws(start.take(j - i)) == trim_end_ws(start),
        decreases j,
    {
        assert(start.take(j - i).drop_last() =~= start.take(j - i - 1));
        assert(start.take(j - i).last() == chars@[j - 1]);
        j -= 1;
    }
    let res = sub_chars(&chars, i, j);
    proof {
        assert(res@ =~= start.take(j - i));
        if j > i {
            assert(start.take(j - i).last() == chars@[j - 1]);
        }
    }
    res
}

/// `s` without its trailing `c` characters.
pub fn trim_end_chars(s: &Vec<char>, c: char) -> (res: Vec<char>)
    ensures
        res@ == trim_end_char(s@, c),
{
    let mut j: usize = s.len();
    proof {
        assert(s@.take(s@.len() as int) =~= s@);
    }
    while j > 0 && s[j - 1] == c
        invariant
            j <= s@.len(),
            trim_end_char(s@.take(j as int), c) == trim_end_char(s@, c),
        decreases j,
    {
        assert(s@.take(j as int).drop_last() =~= s@.take(j - 1));
        j -= 1;
    }
    sub_chars(s, 0, j)
}

/// How many times `c` occurs in `s`.
pub open spec fn count_char(s: Seq<char>, c: char) -> nat
    decreases s.len(),
{
    if s.len() == 0 {
        0
    } else {
        count_char(s.drop_last(), c) + if s.last() == c {
            1nat
        } else {
            0nat
        }
    }
}

/// Count the occurrences of `c`.
pub fn count_chars(s: &Vec<char>, c: char) -> (res: usize)
    ensures
        res == count_char(s@, c),
{
    let mut n: usize = 0;
    let mut i: usize = 0;
    while i < s.len()
        invariant
            i <= s@.len(),
            n == count_char(s@.take(i as int), c),
            n <= i,
        decreases s@.len() - i,
    {
        assert(s@.take(i + 1).drop_last() =~= s@.take(i as int));
        if s[i] == c {
            n += 1;
        }
        i += 1;
    }
    assert(s@.take(i as int) =~= s@);
    n
}

} // verus!

verus! {

/// The first `c` of `a`, `c` and `rest` is the one after `a` when `a` has none.
pub proof fn lemma_find_char_after(a: Seq<char>, rest: Seq<char>, c: char)
    requires
        forall|k: int| 0 <= k < a.len() ==> #[trigger] a[k] != c,
    ensures
        find_char(a + seq![c] + rest, c) == Some(a.len() as int),
    decreases a.len(),
{
    let s = a + seq![c] + rest;
    if a.len() == 0 {
        assert(s[0] == c);
    } else {
        assert(s[0] == a[0]);
        assert(s.skip(1) =~= a.skip(1) + seq![c] + rest);
        assert forall|k: int| 0 <= k < a.skip(1).len() implies #[trigger] a.skip(1)[k] != c by {
            assert(a.skip(1)[k] == a[k + 1]);
        }
        lemma_find_char_after(a.skip(1), rest, c);
    }
}

/// Splitting at the first `n - 1` separators takes off a first piece that
/// holds none.
pub proof fn lemma_split_n_cons(a: Seq<char>, rest: Seq<char>, n: nat, c: char)
    requires
        n >= 2,
        forall|k: int| 0 <= k < a.len() ==> #[trigger] a[k] != c,
    ensures
        split_n(a + seq![c] + rest, n, c) == seq![a] + split_n(rest, (n - 1) as nat, c),
{
    let s = a + seq![c] + rest;
    lemma_find_char_after(a, rest, c);
    assert(s.take(a.len() as int) =~= a);
    assert(s.skip(a.len() as int + 1) =~= rest);
}

/// Splitting from the right at the last `n - 1` separators takes off a last
/// piece that holds none.
pub proof fn lemma_rsplit_n_cons(rest: Seq<char>, b: Seq<char>, n: nat, c: char)
    requires
        n >= 2,
        forall|k: int| 0 <= k < b.len() ==> #[trigger] b[k] != c,
    ensures
        rsplit_n(rest + seq![c] + b, n, c) == seq![b] + rsplit_n(rest, (n - 1) as nat, c),
{
    let s = rest + seq![c] + b;
    assert forall|j: int| rest.len() < j < s.len() implies s[j] != c by {
        assert(s[j] == b[j - rest.len() - 1]);
    }
    lemma_rfind_char_at(s, c, rest.len() as int);
    assert(s.take(rest.len() as int) =~= rest);
    assert(s.skip(rest.len() as int + 1) =~= b);
}

} // verus!
