use crate::error::{Error, Result};
use crate::numbers::{all_digits, digits_value, parse_unsigned, parse_unsigned_max};
use crate::text::{
    chars_of, dec, decimal_u128, find_char, find_char_from, lemma_find_char_bound, pieces_view,
    push_chars, push_str, split_all, split_chars, string_of, sub_chars,
};
use vstd::prelude::*;

verus! {

// ── IPv4 addresses ───────────────────────────────────

/// The value of one part of a dotted IPv4 address: one to three digits, no
/// leading zero, at most 255.
pub open spec fn octet_value(p: Seq<char>) -> Option<nat> {
    if 1 <= p.len() <= 3 && all_digits(p) && !(p.len() > 1 && p[0] == '0') && digits_value(p)
        <= 255 {
        Some(digits_value(p))
    } else {
        None
    }
}

/// The address a dotted IPv4 text names, as `Ipv4Addr`'s parser reads it:
/// exactly four parts separated by dots, each an octet.
pub open spec fn ipv4_value(s: Seq<char>) -> Option<nat> {
    let parts = split_all(s, '.');
    if parts.len() == 4 {
        match (
            octet_value(parts[0]),
            octet_value(parts[1]),
            octet_value(parts[2]),
            octet_value(parts[3]),
        ) {
            (Some(a), Some(b), Some(c), Some(d)) => Some(((a * 256 + b) * 256 + c) * 256 + d),
            _ => None,
        }
    } else {
        None
    }
}

fn octet_of(p: &Vec<char>) -> (res: Option<u32>)
    ensures
        match octet_value(p@) {
            Some(v) => res == Some(v as u32),
            None => res is None,
        },
{
    if p.len() < 1 || p.len() > 3 || (p.len() > 1 && p[0] == '0') {
        return None;
    }
    let text = string_of(p);
    let r = parse_unsigned_max(text.as_str(), 255);
    proof {
        if p@.len() > 0 && p@[0] == '+' {
            assert(!crate::numbers::is_digit(p@[0]));
        }
        assert(crate::numbers::unsigned_body(p@) == p@ || !all_digits(p@));
    }
    if p[0] == '+' {
        return None;
    }
    r
}

/// Parse a dotted IPv4 address into its 32-bit value.
pub fn parse_ipv4(s: &str) -> (res: Option<u32>)
    ensures
        match ipv4_value(s@) {
            Some(v) => res == Some(v as u32),
            None => res is None,
        },
{
    let chars = chars_of(s);
    let parts = split_chars(&chars, '.');
    proof {
        assert(pieces_view(parts@).len() == parts@.len());
        assert(forall|k: int| 0 <= k < parts@.len() ==> #[trigger] pieces_view(parts@)[k]
            == parts@[k]@);
    }
    if parts.len() != 4 {
        return None;
    }
    let a = match octet_of(&parts[0]) {
        Some(v) => v,
        None => {
            return None;
        },
    };
    let b = match octet_of(&parts[1]) {
        Some(v) => v,
        None => {
            return None;
        },
    };
    let c = match octet_of(&parts[2]) {
        Some(v) => v,
        None => {
            return None;
        },
    };
    let d = match octet_of(&parts[3]) {
        Some(v) => v,
        None => {
            return None;
        },
    };
    Some(((a * 256 + b) * 256 + c) * 256 + d)
}

/// An IPv4 address in dotted decimal.
pub open spec fn dotted(v: u32) -> Seq<char> {
    dec((v / 0x100_0000) as nat) + seq!['.'] + dec(((v / 0x1_0000) % 256) as nat) + seq!['.']
        + dec(((v / 256) % 256) as nat) + seq!['.'] + dec((v % 256) as nat)
}

/// Write an IPv4 address in dotted decimal.
pub fn ipv4_text(v: u32) -> (res: String)
    ensures
        res@ == dotted(v),
{
    let mut out = decimal_u128((v / 0x100_0000) as u128);
    out.push('.');
    let b = decimal_u128(((v / 0x1_0000) % 256) as u128);
    push_chars(&mut out, &b);
    out.push('.');
    let c = decimal_u128(((v / 256) % 256) as u128);
    push_chars(&mut out, &c);
    out.push('.');
    let d = decimal_u128((v % 256) as u128);
    push_chars(&mut out, &d);
    assert(out@ =~= dotted(v));
    string_of(&out)
}

proof fn lemma_split_cons(a: Seq<char>, rest: Seq<char>, c: char)
    requires
        forall|k: int| 0 <= k < a.len() ==> #[trigger] a[k] != c,
    ensures
        split_all(a + seq![c] + rest, c) == seq![a] + split_all(rest, c),
{
    let s = a + seq![c] + rest;
    crate::text::lemma_find_char_after(a, rest, c);
    assert(s.take(a.len() as int) =~= a);
    assert(s.skip(a.len() as int + 1) =~= rest);
}

proof fn lemma_split_single(a: Seq<char>, c: char)
    requires
        forall|k: int| 0 <= k < a.len() ==> #[trigger] a[k] != c,
    ensures
        split_all(a, c) == seq![a],
{
    lemma_find_char_bound(a, c);
}

proof fn lemma_octet_dec(x: nat)
    requires
        x <= 255,
    ensures
        octet_value(dec(x)) == Some(x),
        forall|k: int| 0 <= k < dec(x).len() ==> #[trigger] dec(x)[k] != '.',
{
    crate::numbers::lemma_dec_digits(x);
    assert forall|k: int| 0 <= k < dec(x).len() implies #[trigger] dec(x)[k] != '.' by {
        assert(crate::numbers::is_digit(dec(x)[k]));
    }
}

/// The dotted text of an address parses back as the address.
pub proof fn lemma_ipv4_text_roundtrip(v: u32)
    ensures
        ipv4_value(dotted(v)) == Some(v as nat),
{
    let a = (v / 0x100_0000) as nat;
    let b = ((v / 0x1_0000) % 256) as nat;
    let c = ((v / 256) % 256) as nat;
    let d = (v % 256) as nat;
    assert(v / 0x100_0000 < 256);
    lemma_octet_dec(a);
    lemma_octet_dec(b);
    lemma_octet_dec(c);
    lemma_octet_dec(d);
    let (ta, tb, tc, td) = (dec(a), dec(b), dec(c), dec(d));
    assert(dotted(v) =~= ta + seq!['.'] + (tb + seq!['.'] + (tc + seq!['.'] + td)));
    lemma_split_cons(ta, tb + seq!['.'] + (tc + seq!['.'] + td), '.');
    lemma_split_cons(tb, tc + seq!['.'] + td, '.');
    lemma_split_cons(tc, td, '.');
    lemma_split_single(td, '.');
    let parts = split_all(dotted(v), '.');
    assert(parts =~= seq![ta, tb, tc, td]);
    assert(((a * 256 + b) * 256 + c) * 256 + d == v) by {
        assert((((v / 0x100_0000) * 256 + (v / 0x1_0000) % 256) * 256 + (v / 256) % 256) * 256 + v
            % 256 == v) by (bit_vector);
    }
}

// ── CIDR ranges ──────────────────────────────────────

/// Two to the power `n`.
pub open spec fn two_pow(n: nat) -> nat
    decreases n,
{
    if n == 0 {
        1
    } else {
        2 * two_pow((n - 1) as nat)
    }
}

/// How many addresses a range with this prefix length holds.
pub open spec fn block_size(prefix: nat) -> nat {
    two_pow((32 - prefix) as nat)
}

/// The first address of the block of `base` with this prefix length.
pub open spec fn block_start(base: nat, prefix: nat) -> nat {
    (base - base % block_size(prefix)) as nat
}

/// The most addresses a scan may cover.
pub const MAX_SCAN_ADDRESSES: u64 = 16_777_216;

/// The block a CIDR text names, as its first address and its size, or the
/// message of the error: the text needs a `/`, an IPv4 address before it, a
/// prefix length of at most 32 after it, and the block may hold at most
/// 16,777,216 addresses.
pub open spec fn cidr_block(input: Seq<char>) -> std::result::Result<(nat, nat), Seq<char>> {
    match find_char(input, '/') {
        None => Err("expected CIDR notation (e.g. 192.168.1.0/24)"@),
        Some(i) => {
            let addr = input.take(i);
            let prefix_text = input.skip(i + 1);
            match ipv4_value(addr) {
                None => Err("invalid IP: "@ + addr),
                Some(base) => match parse_unsigned(prefix_text, 0xffff_ffff) {
                    None => Err("invalid prefix: "@ + prefix_text),
                    Some(prefix) => if prefix > 32 {
                        Err("prefix too large: /"@ + dec(prefix))
                    } else if block_size(prefix) > MAX_SCAN_ADDRESSES {
                        Err("range too large (max /8 = 16M addresses)"@)
                    } else {
                        Ok((block_start(base, prefix), block_size(prefix)))
                    },
                },
            }
        },
    }
}

/// The addresses `start`, `start + 1`, ..., `start + count - 1`.
pub open spec fn address_run(start: nat, count: nat) -> Seq<u32> {
    Seq::new(count, |k: int| (start + k) as u32)
}

/// Put the addresses in a random order (calls `SliceRandom::shuffle` with
/// the thread's generator). Claims only that the result is a permutation.
#[verifier::external_body]
fn shuffle_addresses(addrs: &mut Vec<u32>)
    ensures
        final(addrs)@.to_multiset() == old(addrs)@.to_multiset(),
        final(addrs)@.len() == old(addrs)@.len(),
{
    rand::seq::SliceRandom::shuffle(addrs.as_mut_slice(), &mut rand::rng());
}

fn power_of_two(n: u32) -> (res: u64)
    requires
        n <= 32,
    ensures
        res == two_pow(n as nat),
        res >= 1,
{
    let mut v: u64 = 1;
    let mut k: u32 = 0;
    while k < n
        invariant
            k <= n <= 32,
            v == two_pow(k as nat),
            v <= 0x1_0000_0000,
        decreases n - k,
    {
        proof {
            lemma_two_pow_bound(k as nat);
        }
        v = v * 2;
        k += 1;
    }
    proof {
        lemma_two_pow_pos(n as nat);
    }
    v
}

proof fn lemma_two_pow_le(n: nat, m: nat)
    requires
        n <= m,
    ensures
        two_pow(n) <= two_pow(m),
    decreases m,
{
    if n < m {
        lemma_two_pow_le(n, (m - 1) as nat);
        lemma_two_pow_pos((m - 1) as nat);
    }
}

#[verifier::spinoff_prover]
proof fn lemma_two_pow_bound(n: nat)
    requires
        n < 32,
    ensures
        two_pow(n) <= 0x8000_0000,
        two_pow(n) >= 1,
{
    lemma_two_pow_le(n, 31);
    lemma_two_pow_pos(n);
    assert(two_pow(31) == 0x8000_0000) by {
        reveal_with_fuel(two_pow, 32);
    }
}

proof fn lemma_two_pow_add(a: nat, b: nat)
    ensures
        two_pow(a + b) == two_pow(a) * two_pow(b),
    decreases a,
{
    if a > 0 {
        let a1 = (a - 1) as nat;
        lemma_two_pow_add(a1, b);
        let x = two_pow(a1);
        let y = two_pow(b);
        assert(two_pow(a + b) == 2 * two_pow(a1 + b));
        assert(two_pow(a) == 2 * x);
        assert(2 * (x * y) == (2 * x) * y) by (nonlinear_arith);
    } else {
        assert(two_pow(a) == 1);
        assert(a + b == b);
    }
}

proof fn lemma_two_pow_32()
    ensures
        two_pow(32) == 0x1_0000_0000,
{
    reveal_with_fuel(two_pow, 33);
}

/// A multiple of `count` below `count * m` is followed by at most `count * m`.
proof fn lemma_block_arith(base: int, count: int, m: int)
    requires
        count >= 1,
        0 <= base < count * m,
    ensures
        0 <= base % count <= base,
        base % count < count,
        base - base % count + count <= count * m,
{
    let q = base / count;
    vstd::arithmetic::div_mod::lemma_fundamental_div_mod(base, count);
    vstd::arithmetic::div_mod::lemma_mod_bound(base, count);
    assert(q >= 0) by {
        vstd::arithmetic::div_mod::lemma_div_pos_is_pos(base, count);
    }
    assert(count * q >= 0) by (nonlinear_arith)
        requires
            count >= 1,
            q >= 0,
    ;
    assert(q < m) by (nonlinear_arith)
        requires
            count * q <= base,
            base < count * m,
            count >= 1,
    ;
    assert(count * q + count <= count * m) by (nonlinear_arith)
        requires
            q + 1 <= m,
            count >= 1,
    ;
}

/// A block lies inside the 32-bit address space.
proof fn lemma_block_fits(base: nat, prefix: nat)
    requires
        base < 0x1_0000_0000,
        prefix <= 32,
    ensures
        block_start(base, prefix) + block_size(prefix) <= 0x1_0000_0000,
        block_start(base, prefix) <= base,
        base < block_start(base, prefix) + block_size(prefix),
        base % block_size(prefix) <= base,
        block_size(prefix) >= 1,
{
    let count = block_size(prefix);
    lemma_two_pow_add((32 - prefix) as nat, prefix);
    lemma_two_pow_32();
    lemma_two_pow_pos((32 - prefix) as nat);
    lemma_block_arith(base as int, count as int, two_pow(prefix) as int);
}

proof fn lemma_two_pow_pos(n: nat)
    ensures
        two_pow(n) >= 1,
    decreases n,
{
    if n > 0 {
        lemma_two_pow_pos((n - 1) as nat);
    }
}

fn invalid_address(msg: Vec<char>) -> (res: Error)
    ensures
        res matches Error::InvalidAddress(m) && m@ == msg@,
{
    Error::InvalidAddress(string_of(&msg))
}

/// Parse a CIDR range and list its addresses in a random order.
pub fn parse_cidr(input: &str) -> (res: Result<Vec<u32>>)
    ensures
        match cidr_block(input@) {
            Ok((start, count)) => res matches Ok(v) && v@.len() == count && v@.to_multiset()
                == address_run(start, count).to_multiset(),
            Err(m) => res matches Err(Error::InvalidAddress(e)) && e@ == m,
        },
{
    let chars = chars_of(input);
    let n = chars.len();
    proof {
        lemma_find_char_bound(chars@, '/');
        assert(chars@.skip(0) =~= chars@);
    }
    let slash = match find_char_from(&chars, '/', 0) {
        Some(i) => i,
        None => {
            let msg = chars_of("expected CIDR notation (e.g. 192.168.1.0/24)");
            return Err(invalid_address(msg));
        },
    };
    let addr = sub_chars(&chars, 0, slash);
    let prefix_chars = sub_chars(&chars, slash + 1, n);
    assert(addr@ =~= chars@.take(slash as int));
    assert(prefix_chars@ =~= chars@.skip(slash + 1));
    let addr_text = string_of(&addr);
    let base = match parse_ipv4(addr_text.as_str()) {
        Some(b) => b,
        None => {
            let mut msg = chars_of("invalid IP: ");
            push_chars(&mut msg, &addr);
            return Err(invalid_address(msg));
        },
    };
    let prefix_text = string_of(&prefix_chars);
    let prefix = match parse_unsigned_max(prefix_text.as_str(), 0xffff_ffff) {
        Some(p) => p,
        None => {
            let mut msg = chars_of("invalid prefix: ");
            push_chars(&mut msg, &prefix_chars);
            return Err(invalid_address(msg));
        },
    };
    if prefix > 32 {
        let mut msg = chars_of("prefix too large: /");
        let digits = decimal_u128(prefix as u128);
        push_chars(&mut msg, &digits);
        return Err(invalid_address(msg));
    }
    let count = power_of_two(32 - prefix);
    if count > MAX_SCAN_ADDRESSES {
        let msg = chars_of("range too large (max /8 = 16M addresses)");
        return Err(invalid_address(msg));
    }
    proof {
        lemma_block_fits(base as nat, prefix as nat);
    }
    let start = base as u64 - (base as u64) % count;
    let mut addrs: Vec<u32> = Vec::new();
    let mut k: u64 = 0;
    while k < count
        invariant
            k <= count,
            start + count <= 0x1_0000_0000,
            addrs@ =~= address_run(start as nat, count as nat).take(k as int),
        decreases count - k,
    {
        addrs.push((start + k) as u32);
        k += 1;
    }
    assert(address_run(start as nat, count as nat).take(count as int) =~= address_run(
        start as nat,
        count as nat,
    ));
    let ghost ordered = addrs@;
    shuffle_addresses(&mut addrs);
    Ok(addrs)
}


/// The number of addresses a CIDR text's prefix length gives, without
/// looking at the address: `None` without a `/`, with a prefix that does not
/// parse, or one above 32.
pub open spec fn cidr_count(input: Seq<char>) -> Option<nat> {
    match find_char(input, '/') {
        None => None,
        Some(i) => match parse_unsigned(input.skip(i + 1), 0xffff_ffff) {
            None => None,
            Some(prefix) => if prefix > 32 {
                None
            } else {
                Some(block_size(prefix))
            },
        },
    }
}

/// The number of addresses in a CIDR range (for display); `None` also when
/// the number does not fit in `usize`.
pub fn cidr_size(input: &str) -> (res: Option<usize>)
    ensures
        match cidr_count(input@) {
            Some(n) => if n <= usize::MAX {
                res == Some(n as usize)
            } else {
                res is None
            },
            None => res is None,
        },
{
    let chars = chars_of(input);
    let n = chars.len();
    proof {
        lemma_find_char_bound(chars@, '/');
        assert(chars@.skip(0) =~= chars@);
    }
    let slash = match find_char_from(&chars, '/', 0) {
        Some(i) => i,
        None => {
            return None;
        },
    };
    let prefix_chars = sub_chars(&chars, slash + 1, n);
    assert(prefix_chars@ =~= chars@.skip(slash + 1));
    let prefix_text = string_of(&prefix_chars);
    let prefix = match parse_unsigned_max(prefix_text.as_str(), 0xffff_ffff) {
        Some(p) => p,
        None => {
            return None;
        },
    };
    if prefix > 32 {
        return None;
    }
    let count = power_of_two(32 - prefix);
    if count as u128 > usize::MAX as u128 {
        return None;
    }
    Some(count as usize)
}

/// A range that parses lists as many addresses as `cidr_size` counts, and
/// its block holds the address it was written with.
pub proof fn lemma_cidr_size_agrees(input: Seq<char>)
    ensures
        cidr_block(input) matches Ok((start, count)) ==> {
            &&& cidr_count(input) == Some(count)
            &&& ipv4_value(input.take(find_char(input, '/').unwrap())) matches Some(base)
                && start <= base < start + count
        },
{
    if let Ok((start, count)) = cidr_block(input) {
        let i = find_char(input, '/').unwrap();
        let base = ipv4_value(input.take(i)).unwrap();
        let prefix = parse_unsigned(input.skip(i + 1), 0xffff_ffff).unwrap();
        assert(base < 0x1_0000_0000) by {
            lemma_ipv4_bound(input.take(i));
        }
        lemma_block_fits(base, prefix);
    }
}

/// The addresses of a parsed block, listed in a run, are each address of
/// the block exactly once and no other address.
pub proof fn lemma_block_run_exact(input: Seq<char>)
    ensures
        cidr_block(input) matches Ok((start, count)) ==> forall|a: u32|
            #[trigger] address_run(start, count).to_multiset().count(a) == if start <= a < start
                + count {
                1nat
            } else {
                0nat
            },
{
    broadcast use vstd::seq_lib::group_to_multiset_ensures;

    if let Ok((start, count)) = cidr_block(input) {
        let i = find_char(input, '/').unwrap();
        let base = ipv4_value(input.take(i)).unwrap();
        let prefix = parse_unsigned(input.skip(i + 1), 0xffff_ffff).unwrap();
        assert(base < 0x1_0000_0000) by {
            lemma_ipv4_bound(input.take(i));
        }
        lemma_block_fits(base, prefix);
        let run = address_run(start, count);
        assert(forall|k: int| 0 <= k < count ==> #[trigger] run[k] as int == start + k);
        assert(run.no_duplicates());
        run.lemma_multiset_has_no_duplicates();
        assert forall|a: u32| #[trigger] run.to_multiset().count(a) == if start <= a < start + count {
            1nat
        } else {
            0nat
        } by {
            if start <= a < start + count {
                assert(run[a - start] == a);
                assert(run.contains(a));
            } else {
                assert(!run.contains(a));
            }
        }
    }
}

/// An IPv4 address fits in 32 bits.
pub proof fn lemma_ipv4_bound(s: Seq<char>)
    ensures
        ipv4_value(s) matches Some(v) ==> v < 0x1_0000_0000,
{
}

} // verus!
