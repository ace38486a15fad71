use vstd::prelude::*;

verus! {

/// Whether `c` is an ASCII decimal digit.
pub open spec fn is_digit(c: char) -> bool {
    '0' <= c && c <= '9'
}

/// Whether every character of `d` is an ASCII decimal digit.
pub open spec fn all_digits(d: Seq<char>) -> bool {
    forall|k: int| 0 <= k < d.len() ==> is_digit(#[trigger] d[k])
}

/// The value of a run of decimal digits.
pub open spec fn digits_value(d: Seq<char>) -> nat
    decreases d.len(),
{
    if d.len() == 0 {
        0
    } else {
        digits_value(d.drop_last()) * 10 + ((d.last() as int - 48) as nat)
    }
}

/// The digits of an unsigned number's text: the text without one leading `+`.
pub open spec fn unsigned_body(s: Seq<char>) -> Seq<char> {
    if s.len() > 0 && s[0] == '+' {
        s.skip(1)
    } else {
        s
    }
}

/// What `str::parse` gives for an unsigned integer type whose largest value
/// is `max`: an optional `+`, then one or more ASCII digits whose value is at
/// most `max`.
pub open spec fn parse_unsigned(s: Seq<char>, max: nat) -> Option<nat> {
    let d = unsigned_body(s);
    if d.len() > 0 && all_digits(d) && digits_value(d) <= max {
        Some(digits_value(d))
    } else {
        None
    }
}

/// What `str::parse` gives for a signed integer type of range `min..=max`:
/// an optional `-` or `+`, then one or more ASCII digits, the value in range.
pub open spec fn parse_signed(s: Seq<char>, min: int, max: int) -> Option<int> {
    let neg = s.len() > 0 && s[0] == '-';
    let d = if neg {
        s.skip(1)
    } else {
        unsigned_body(s)
    };
    let v = if neg {
        -(digits_value(d) as int)
    } else {
        digits_value(d) as int
    };
    if d.len() > 0 && all_digits(d) && min <= v <= max {
        Some(v)
    } else {
        None
    }
}

proof fn lemma_digits_value_grows(d: Seq<char>, i: int)
    requires
        0 <= i <= d.len(),
    ensures
        digits_value(d.take(i)) <= digits_value(d),
    decreases d.len(),
{
    if i < d.len() {
        lemma_digits_value_grows(d.drop_last(), i);
        assert(d.drop_last().take(i) =~= d.take(i));
    } else {
        assert(d.take(i) =~= d);
    }
}

/// The value of the digits of `s` from `start` on, when they are one or more
/// digits worth at most `bound`.
fn digits_from(s: &Vec<char>, start: usize, bound: u64) -> (res: Option<u64>)
    requires
        start <= s@.len(),
        bound <= 0x1_0000_0000,
    ensures
        ({
            let d = s@.skip(start as int);
            match res {
                Some(v) => d.len() > 0 && all_digits(d) && digits_value(d) <= bound && v
                    == digits_value(d),
                None => !(d.len() > 0 && all_digits(d) && digits_value(d) <= bound),
            }
        }),
{
    let ghost d = s@.skip(start as int);
    if start == s.len() {
        return None;
    }
    let mut acc: u64 = 0;
    let mut i = start;
    proof {
        assert(d.take(0) =~= Seq::<char>::empty());
    }
    while i < s.len()
        invariant
            start <= i <= s@.len(),
            d == s@.skip(start as int),
            bound <= 0x1_0000_0000,
            acc <= bound,
            acc == digits_value(d.take(i - start)),
            all_digits(d.take(i - start)),
        decreases s@.len() - i,
    {
        let c = s[i];
        assert(d[i - start] == c);
        if !('0' <= c && c <= '9') {
            return None;
        }
        let digit = (c as u32 - 48) as u64;
        assert(d.take(i - start + 1).drop_last() =~= d.take(i - start));
        acc = acc * 10 + digit;
        proof {
            assert(all_digits(d.take(i - start + 1))) by {
                assert forall|k: int| 0 <= k < d.take(i - start + 1).len() implies is_digit(
                    #[trigger] d.take(i - start + 1)[k],
                ) by {
                    if k < i - start {
                        assert(d.take(i - start + 1)[k] == d.take(i - start)[k]);
                    }
                }
            }
        }
        if acc > bound {
            proof {
                if all_digits(d) {
                    lemma_digits_value_grows(d, i - start + 1);
                }
            }
            return None;
        }
        i += 1;
    }
    assert(d.take(i - start) =~= d);
    Some(acc)
}

/// Parse an unsigned number no larger than `max`, as `str::parse` does for an
/// unsigned type whose largest value is `max`.
pub fn parse_unsigned_max(s: &str, max: u32) -> (res: Option<u32>)
    ensures
        match parse_unsigned(s@, max as nat) {
            Some(v) => res == Some(v as u32),
            None => res is None,
        },
{
    let chars = crate::text::chars_of(s);
    let start: usize = if chars.len() > 0 && chars[0] == '+' {
        1
    } else {
        0
    };
    proof {
        assert(chars@.skip(0) =~= chars@);
    }
    match digits_from(&chars, start, max as u64) {
        Some(v) => Some(v as u32),
        None => None,
    }
}

/// Parse a port number as `str::parse::<u16>` does.
pub fn parse_u16(s: &str) -> (res: Option<u16>)
    ensures
        match parse_unsigned(s@, 65535) {
            Some(v) => res == Some(v as u16),
            None => res is None,
        },
{
    match parse_unsigned_max(s, 65535) {
        Some(v) => Some(v as u16),
        None => None,
    }
}

/// Parse a number as `str::parse::<i32>` does.
pub fn parse_i32(s: &str) -> (res: Option<i32>)
    ensures
        match parse_signed(s@, i32::MIN as int, i32::MAX as int) {
            Some(v) => res == Some(v as i32),
            None => res is None,
        },
{
    let chars = crate::text::chars_of(s);
    if chars.len() > 0 && chars[0] == '-' {
        match digits_from(&chars, 1, 0x8000_0000) {
            Some(v) => Some((0 - (v as i64)) as i32),
            None => None,
        }
    } else {
        let start: usize = if chars.len() > 0 && chars[0] == '+' {
            1
        } else {
            0
        };
        proof {
            assert(chars@.skip(0) =~= chars@);
        }
        match digits_from(&chars, start, 0x7fff_ffff) {
            Some(v) => Some(v as i32),
            None => None,
        }
    }
}

/// Decimal text is one or more digits without a leading zero, and its value
/// is the number written.
pub proof fn lemma_dec_digits(n: nat)
    ensures
        all_digits(crate::text::dec(n)),
        digits_value(crate::text::dec(n)) == n,
        crate::text::dec(n).len() >= 1,
        crate::text::dec(n).len() > 1 ==> crate::text::dec(n)[0] != '0',
        n < 10 ==> crate::text::dec(n).len() == 1,
        n >= 10 ==> crate::text::dec(n).len() >= 2,
        n < 100 ==> crate::text::dec(n).len() <= 2,
        n < 1000 ==> crate::text::dec(n).len() <= 3,
    decreases n,
{
    let t = crate::text::dec(n);
    let d = (n % 10) as nat;
    assert(((48 + d) as char) as int == 48 + d);
    assert(digits_value(Seq::<char>::empty()) == 0);
    if n < 10 {
        assert(t == seq![crate::text::digit_char(n)]);
        assert(t.drop_last() =~= Seq::<char>::empty());
        assert(t.last() == crate::text::digit_char(n));
        assert(((48 + n) as char) as int == 48 + n);
    } else {
        lemma_dec_digits(n / 10);
        let p = crate::text::dec(n / 10);
        assert(t == p.push(crate::text::digit_char(d)));
        assert(t.drop_last() =~= p);
        assert(t.last() == crate::text::digit_char(d));
        assert(t[0] == p[0]);
        assert(n == (n / 10) * 10 + d);
        if n / 10 < 10 {
            assert(p == seq![crate::text::digit_char(n / 10)]);
            assert(((48 + n / 10) as char) as int == 48 + n / 10);
        }
        assert forall|k: int| 0 <= k < t.len() implies is_digit(#[trigger] t[k]) by {
            if k < p.len() {
                assert(t[k] == p[k]);
            }
        }
    }
}

/// Parsing the decimal text of a number gives the number back.
pub proof fn lemma_parse_dec(n: nat, max: nat)
    requires
        n <= max,
    ensures
        parse_unsigned(crate::text::dec(n), max) == Some(n),
{
    lemma_dec_digits(n);
    assert(is_digit(crate::text::dec(n)[0]));
}

} // verus!
