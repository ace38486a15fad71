use crate::style::{
    basic_code, basic_fits, concat, effect_codes, fg_code, is_basic_fg, join_codes, look_codes,
    painted, paints, reapply, renders, reset_seq, sgr, styled, Hue, LookSpec, Piece,
};
use crate::text::{dec, digit_char};
use vstd::prelude::*;

verus! {

// ── Stripping escapes ────────────────────────────────

/// Whether reading `c` leaves us inside an escape: an escape starts at
/// `\x1b` and runs through the next `m`.
pub open spec fn step(c: char, inside: bool) -> bool {
    if inside {
        c != 'm'
    } else {
        c == '\x1b'
    }
}

/// What `c` leaves in the stripped text.
pub open spec fn shown(c: char, inside: bool) -> Seq<char> {
    if !inside && c != '\x1b' {
        seq![c]
    } else {
        seq![]
    }
}

/// `s` with its escapes removed; `inside` says whether `s` starts inside one.
pub open spec fn strip_from(s: Seq<char>, inside: bool) -> Seq<char>
    decreases s.len(),
{
    if s.len() == 0 {
        seq![]
    } else {
        shown(s[0], inside) + strip_from(s.skip(1), step(s[0], inside))
    }
}

/// Whether `s`, read from the state `inside`, ends inside an escape.
pub open spec fn ends_inside(s: Seq<char>, inside: bool) -> bool
    decreases s.len(),
{
    if s.len() == 0 {
        inside
    } else {
        ends_inside(s.skip(1), step(s[0], inside))
    }
}

/// The text a terminal shows of `s`: every escape, from `\x1b` through the
/// next `m`, removed.
pub open spec fn strip_escapes(s: Seq<char>) -> Seq<char> {
    strip_from(s, false)
}

/// `s` holds no escape character.
pub open spec fn no_escape(s: Seq<char>) -> bool {
    forall|k: int| 0 <= k < s.len() ==> #[trigger] s[k] != '\x1b'
}

/// `s` holds no `m`.
pub open spec fn no_m(s: Seq<char>) -> bool {
    forall|k: int| 0 <= k < s.len() ==> #[trigger] s[k] != 'm'
}

/// The texts of the pieces, one after the other.
pub open spec fn texts(pieces: Seq<Piece>) -> Seq<char> {
    concat(pieces.map_values(|p: Piece| p.text))
}

proof fn lemma_concat_prepend(x: Seq<char>, xs: Seq<Seq<char>>)
    ensures
        concat(seq![x] + xs) == x + concat(xs),
    decreases xs.len(),
{
    if xs.len() == 0 {
        let one: Seq<Seq<char>> = seq![x];
        assert(seq![x] + xs =~= one);
        assert(one.drop_last() =~= Seq::<Seq<char>>::empty());
        assert(concat(one.drop_last()) == Seq::<char>::empty());
        assert(Seq::<char>::empty() + x =~= x);
        assert(x + Seq::<char>::empty() =~= x);
    } else {
        lemma_concat_prepend(x, xs.drop_last());
        assert((seq![x] + xs).drop_last() =~= seq![x] + xs.drop_last());
        assert((seq![x] + xs).last() == xs.last());
        assert(x + concat(xs.drop_last()) + xs.last() =~= x + (concat(xs.drop_last()) + xs.last()));
    }
}

/// The texts of a piece followed by others: its text, then theirs.
pub proof fn lemma_texts_prepend(p: Piece, rest: Seq<Piece>)
    ensures
        texts(seq![p] + rest) == p.text + texts(rest),
{
    assert((seq![p] + rest).map_values(|q: Piece| q.text) =~= seq![p.text] + rest.map_values(
        |q: Piece| q.text,
    ));
    lemma_concat_prepend(p.text, rest.map_values(|q: Piece| q.text));
}

/// The texts of two runs of pieces: the first's, then the second's.
pub proof fn lemma_texts_concat(a: Seq<Piece>, b: Seq<Piece>)
    ensures
        texts(a + b) == texts(a) + texts(b),
    decreases a.len(),
{
    if a.len() == 0 {
        assert(a + b =~= b);
        assert(a.map_values(|p: Piece| p.text) =~= Seq::<Seq<char>>::empty());
        assert(Seq::<char>::empty() + texts(b) =~= texts(b));
    } else {
        lemma_texts_concat(a.skip(1), b);
        assert(a =~= seq![a[0]] + a.skip(1));
        assert(a + b =~= seq![a[0]] + (a.skip(1) + b));
        lemma_texts_prepend(a[0], a.skip(1) + b);
        lemma_texts_prepend(a[0], a.skip(1));
        assert(a[0].text + (texts(a.skip(1)) + texts(b)) =~= a[0].text + texts(a.skip(1)) + texts(b));
    }
}

/// The text of a single piece.
pub proof fn lemma_texts_single(p: Piece)
    ensures
        texts(seq![p]) == p.text,
{
    lemma_texts_prepend(p, Seq::<Piece>::empty());
    assert(seq![p] + Seq::<Piece>::empty() =~= seq![p]);
    assert(Seq::<Piece>::empty().map_values(|q: Piece| q.text) =~= Seq::<Seq<char>>::empty());
    assert(p.text + Seq::<char>::empty() =~= p.text);
}

/// Every piece's text is free of escape characters.
pub open spec fn pieces_plain(ps: Seq<Piece>) -> bool {
    forall|i: int| 0 <= i < ps.len() ==> no_escape(#[trigger] ps[i].text)
}

pub proof fn lemma_pieces_plain_concat(a: Seq<Piece>, b: Seq<Piece>)
    requires
        pieces_plain(a),
        pieces_plain(b),
    ensures
        pieces_plain(a + b),
{
    assert forall|i: int| 0 <= i < (a + b).len() implies no_escape(#[trigger] (a + b)[i].text) by {
        if i < a.len() {
            assert((a + b)[i] == a[i]);
        } else {
            assert((a + b)[i] == b[i - a.len()]);
        }
    }
}

pub proof fn lemma_strip_concat(a: Seq<char>, b: Seq<char>, inside: bool)
    ensures
        strip_from(a + b, inside) == strip_from(a, inside) + strip_from(b, ends_inside(a, inside)),
        ends_inside(a + b, inside) == ends_inside(b, ends_inside(a, inside)),
    decreases a.len(),
{
    if a.len() == 0 {
        assert(a + b =~= b);
        assert(Seq::<char>::empty() + strip_from(b, inside) =~= strip_from(b, inside));
    } else {
        let next = step(a[0], inside);
        lemma_strip_concat(a.skip(1), b, next);
        assert((a + b).skip(1) =~= a.skip(1) + b);
        assert((a + b)[0] == a[0]);
        assert(shown(a[0], inside) + (strip_from(a.skip(1), next) + strip_from(
            b,
            ends_inside(a.skip(1), next),
        )) =~= shown(a[0], inside) + strip_from(a.skip(1), next) + strip_from(
            b,
            ends_inside(a.skip(1), next),
        ));
    }
}

proof fn lemma_strip_text(t: Seq<char>)
    requires
        no_escape(t),
    ensures
        strip_from(t, false) == t,
        !ends_inside(t, false),
    decreases t.len(),
{
    if t.len() > 0 {
        assert(t[0] != '\x1b');
        assert(no_escape(t.skip(1))) by {
            assert forall|k: int| 0 <= k < t.skip(1).len() implies #[trigger] t.skip(1)[k]
                != '\x1b' by {
                assert(t.skip(1)[k] == t[k + 1]);
            }
        }
        lemma_strip_text(t.skip(1));
        assert(seq![t[0]] + t.skip(1) =~= t);
    }
}

proof fn lemma_strip_inside(s: Seq<char>)
    requires
        no_m(s),
    ensures
        strip_from(s, true) == Seq::<char>::empty(),
        ends_inside(s, true),
    decreases s.len(),
{
    if s.len() > 0 {
        assert(s[0] != 'm');
        assert(no_m(s.skip(1))) by {
            assert forall|k: int| 0 <= k < s.skip(1).len() implies #[trigger] s.skip(1)[k] != 'm' by {
                assert(s.skip(1)[k] == s[k + 1]);
            }
        }
        lemma_strip_inside(s.skip(1));
        assert(Seq::<char>::empty() + Seq::<char>::empty() =~= Seq::<char>::empty());
    }
}

proof fn lemma_strip_single(c: char, inside: bool)
    ensures
        strip_from(seq![c], inside) == shown(c, inside),
        ends_inside(seq![c], inside) == step(c, inside),
{
    let one: Seq<char> = seq![c];
    assert(one.skip(1) =~= Seq::<char>::empty());
    assert(one.len() == 1 && one[0] == c);
    assert(strip_from(one.skip(1), step(c, inside)) == Seq::<char>::empty());
    assert(ends_inside(one.skip(1), step(c, inside)) == step(c, inside));
    assert(shown(c, inside) + Seq::<char>::empty() =~= shown(c, inside));
}

/// An escape whose codes hold no `m` shows nothing and closes.
proof fn lemma_strip_sgr(codes: Seq<char>)
    requires
        no_m(codes),
    ensures
        strip_from(sgr(codes), false) == Seq::<char>::empty(),
        !ends_inside(sgr(codes), false),
{
    let body = seq!['['] + codes;
    assert(no_m(body)) by {
        assert forall|k: int| 0 <= k < body.len() implies #[trigger] body[k] != 'm' by {
            if k > 0 {
                assert(body[k] == codes[k - 1]);
            }
        }
    }
    assert(sgr(codes) =~= seq!['\x1b'] + body + seq!['m']);
    lemma_strip_single('\x1b', false);
    lemma_strip_inside(body);
    lemma_strip_single('m', true);
    lemma_strip_concat(seq!['\x1b'], body, false);
    lemma_strip_concat(seq!['\x1b'] + body, seq!['m'], false);
    assert(Seq::<char>::empty() + Seq::<char>::empty() =~= Seq::<char>::empty());
}

proof fn lemma_reapply_text(t: Seq<char>, prefix: Seq<char>)
    requires
        no_escape(t),
    ensures
        reapply(t, prefix) == t,
    decreases t.len(),
{
    if t.len() > 0 {
        assert(t[0] != '\x1b');
        if t.len() >= 4 {
            assert(t.take(4)[0] == t[0]);
            assert(t.take(4) != reset_seq());
        }
        assert(no_escape(t.skip(1))) by {
            assert forall|k: int| 0 <= k < t.skip(1).len() implies #[trigger] t.skip(1)[k]
                != '\x1b' by {
                assert(t.skip(1)[k] == t[k + 1]);
            }
        }
        lemma_reapply_text(t.skip(1), prefix);
        assert(seq![t[0]] + t.skip(1) =~= t);
    }
}

proof fn lemma_dec_no_m(n: nat)
    ensures
        no_m(dec(n)),
    decreases n,
{
    let d = (n % 10) as nat;
    assert((digit_char(d) as int) == 48 + d);
    if n >= 10 {
        lemma_dec_no_m(n / 10);
        let s = dec(n / 10);
        assert forall|k: int| 0 <= k < dec(n).len() implies #[trigger] dec(n)[k] != 'm' by {
            if k < s.len() {
                assert(dec(n)[k] == s[k]);
            }
        }
    } else {
        assert(digit_char(n) as int == 48 + n);
    }
}

proof fn lemma_join_no_m(parts: Seq<Seq<char>>)
    requires
        forall|i: int| 0 <= i < parts.len() ==> no_m(#[trigger] parts[i]),
    ensures
        no_m(join_codes(parts)),
    decreases parts.len(),
{
    if parts.len() > 1 {
        let rest = parts.skip(1);
        assert forall|i: int| 0 <= i < rest.len() implies no_m(#[trigger] rest[i]) by {
            assert(rest[i] == parts[i + 1]);
        }
        lemma_join_no_m(rest);
        assert(no_m(parts[0]));
        let j = parts[0] + seq![';'] + join_codes(rest);
        assert forall|k: int| 0 <= k < j.len() implies #[trigger] j[k] != 'm' by {
            if k < parts[0].len() {
            } else if k == parts[0].len() {
            } else {
                assert(j[k] == join_codes(rest)[k - parts[0].len() - 1]);
            }
        }
    } else if parts.len() == 1 {
        assert(no_m(parts[0]));
    }
}

proof fn lemma_fg_code_no_m(h: Hue, truecolor: bool, basic: Seq<char>)
    requires
        truecolor || !(h is Rgb) || is_basic_fg(basic),
    ensures
        no_m(fg_code(h, truecolor, basic)),
{
    if let Hue::Rgb(r, g, b) = h {
        if truecolor {
            lemma_dec_no_m(r as nat);
            lemma_dec_no_m(g as nat);
            lemma_dec_no_m(b as nat);
            let a = seq!['3', '8', ';', '2', ';'];
            let x = a + dec(r as nat);
            let y = x + seq![';'] + dec(g as nat);
            let z = y + seq![';'] + dec(b as nat);
            assert(no_m(x)) by {
                assert forall|k: int| 0 <= k < x.len() implies #[trigger] x[k] != 'm' by {
                    if k >= 5 {
                        assert(x[k] == dec(r as nat)[k - 5]);
                    }
                }
            }
            assert(no_m(y)) by {
                assert forall|k: int| 0 <= k < y.len() implies #[trigger] y[k] != 'm' by {
                    if k < x.len() {
                        assert(y[k] == x[k]);
                    } else if k > x.len() {
                        assert(y[k] == dec(g as nat)[k - x.len() - 1]);
                    }
                }
            }
            assert forall|k: int| 0 <= k < z.len() implies #[trigger] z[k] != 'm' by {
                if k < y.len() {
                    assert(z[k] == y[k]);
                } else if k > y.len() {
                    assert(z[k] == dec(b as nat)[k - y.len() - 1]);
                }
            }
        }
    }
}

proof fn lemma_effect_codes_no_m(effects: Seq<crate::style::Effect>)
    ensures
        forall|i: int| 0 <= i < effect_codes(effects).len() ==> no_m(#[trigger] effect_codes(effects)[i]),
{
    let e = effect_codes(effects);
    assert forall|i: int| 0 <= i < e.len() implies no_m(#[trigger] e[i]) by {
        assert(e[i] == seq!['1'] || e[i] == seq!['2'] || e[i] == seq!['4'] || e[i] == seq!['3']
            || e[i] == seq!['9']);
    }
}

/// The codes of a look hold no `m`, when an RGB color without 24-bit color
/// has a basic code.
proof fn lemma_look_codes_no_m(l: LookSpec, truecolor: bool, basic: Seq<char>)
    requires
        truecolor || basic_fits(l, basic),
    ensures
        no_m(look_codes(l, truecolor, basic)),
{
    let e = effect_codes(l.effects);
    lemma_effect_codes_no_m(l.effects);
    let parts = e + match l.fg {
        Some(h) => seq![fg_code(h, truecolor, basic)],
        None => seq![],
    };
    if let Some(h) = l.fg {
        lemma_fg_code_no_m(h, truecolor, basic);
    }
    assert forall|i: int| 0 <= i < parts.len() implies no_m(#[trigger] parts[i]) by {
        if i < e.len() {
            assert(parts[i] == e[i]);
        }
    }
    lemma_join_no_m(parts);
}

/// Painting text without escapes and stripping the escapes gives the text
/// back, and the painting ends outside any escape.
pub proof fn lemma_painted_strip(l: LookSpec, text: Seq<char>, out: Seq<char>)
    requires
        painted(l, text, out),
        no_escape(text),
    ensures
        strip_escapes(out) == text,
        !ends_inside(out, false),
{
    lemma_strip_text(text);
    if out != text {
        let basic = basic_code(l);
        let truecolor = out == styled(l, text, true, basic);
        lemma_look_codes_no_m(l, truecolor, basic);
        let prefix = sgr(look_codes(l, truecolor, basic));
        lemma_strip_sgr(look_codes(l, truecolor, basic));
        lemma_reapply_text(text, prefix);
        assert(reset_seq() =~= sgr(seq!['0']));
        assert(no_m(seq!['0']));
        lemma_strip_sgr(seq!['0']);
        lemma_strip_concat(prefix, text, false);
        lemma_strip_concat(prefix + text, reset_seq(), false);
        assert(out == prefix + text + reset_seq());
        assert(Seq::<char>::empty() + text =~= text);
        assert(text + Seq::<char>::empty() =~= text);
    }
}

/// A reset escape shows nothing and closes, whether it starts inside an
/// escape or not.
proof fn lemma_strip_reset(inside: bool)
    ensures
        strip_from(reset_seq(), inside) == Seq::<char>::empty(),
        !ends_inside(reset_seq(), inside),
{
    let head = seq!['\x1b', '[', '0'];
    assert(reset_seq() =~= head + seq!['m']);
    if inside {
        assert(no_m(head));
        lemma_strip_inside(head);
        lemma_strip_single('m', true);
        lemma_strip_concat(head, seq!['m'], true);
    } else {
        assert(reset_seq() =~= sgr(seq!['0']));
        assert(no_m(seq!['0']));
        lemma_strip_sgr(seq!['0']);
    }
    assert(Seq::<char>::empty() + Seq::<char>::empty() =~= Seq::<char>::empty());
}

/// Putting an escape that shows nothing after every reset changes neither
/// what the text shows nor where it ends.
proof fn lemma_reapply_strip(t: Seq<char>, prefix: Seq<char>, inside: bool)
    requires
        strip_from(prefix, false) == Seq::<char>::empty(),
        !ends_inside(prefix, false),
    ensures
        strip_from(reapply(t, prefix), inside) == strip_from(t, inside),
        ends_inside(reapply(t, prefix), inside) == ends_inside(t, inside),
    decreases t.len(),
{
    if t.len() == 0 {
    } else if t.len() >= 4 && t.take(4) == reset_seq() {
        let rest = t.skip(4);
        lemma_reapply_strip(rest, prefix, false);
        lemma_strip_reset(inside);
        assert(t =~= reset_seq() + rest);
        lemma_strip_concat(reset_seq(), rest, inside);
        lemma_strip_concat(reset_seq(), prefix, inside);
        lemma_strip_concat(reset_seq() + prefix, reapply(rest, prefix), inside);
        assert(Seq::<char>::empty() + Seq::<char>::empty() =~= Seq::<char>::empty());
        assert(Seq::<char>::empty() + strip_from(rest, false) =~= strip_from(rest, false));
    } else {
        let rest = t.skip(1);
        let next = step(t[0], inside);
        lemma_reapply_strip(rest, prefix, next);
        assert(t =~= seq![t[0]] + rest);
        lemma_strip_single(t[0], inside);
        lemma_strip_concat(seq![t[0]], rest, inside);
        lemma_strip_concat(seq![t[0]], reapply(rest, prefix), inside);
    }
}

/// Painting text that ends outside any escape, escapes and all, and then
/// stripping the escapes shows what the text itself shows; the painting too
/// ends outside any escape.
pub proof fn lemma_painted_strip_any(l: LookSpec, text: Seq<char>, out: Seq<char>)
    requires
        painted(l, text, out),
        !ends_inside(text, false),
    ensures
        strip_escapes(out) == strip_escapes(text),
        !ends_inside(out, false),
{
    if out != text {
        let basic = basic_code(l);
        let truecolor = out == styled(l, text, true, basic);
        lemma_look_codes_no_m(l, truecolor, basic);
        let prefix = sgr(look_codes(l, truecolor, basic));
        lemma_strip_sgr(look_codes(l, truecolor, basic));
        lemma_reapply_strip(text, prefix, false);
        let body = reapply(text, prefix);
        lemma_strip_reset(false);
        lemma_strip_concat(prefix, body, false);
        lemma_strip_concat(prefix + body, reset_seq(), false);
        assert(out == prefix + body + reset_seq());
        assert(Seq::<char>::empty() + strip_from(text, false) =~= strip_from(text, false));
        assert(strip_from(text, false) + Seq::<char>::empty() =~= strip_from(text, false));
    }
}

proof fn lemma_parts_strip(pieces: Seq<Piece>, parts: Seq<Seq<char>>)
    requires
        paints(pieces, parts),
        forall|i: int| 0 <= i < pieces.len() ==> no_escape(#[trigger] pieces[i].text),
    ensures
        strip_escapes(concat(parts)) == texts(pieces),
        !ends_inside(concat(parts), false),
    decreases pieces.len(),
{
    if pieces.len() > 0 {
        let n = pieces.len() - 1;
        assert(painted(pieces[n].look, pieces[n].text, parts[n]));
        assert(no_escape(pieces[n].text));
        assert forall|i: int| 0 <= i < parts.drop_last().len() implies painted(
            pieces.drop_last()[i].look,
            pieces.drop_last()[i].text,
            #[trigger] parts.drop_last()[i],
        ) by {
            assert(painted(pieces[i].look, pieces[i].text, parts[i]));
        }
        assert forall|i: int| 0 <= i < pieces.drop_last().len() implies no_escape(
            #[trigger] pieces.drop_last()[i].text,
        ) by {
            assert(no_escape(pieces[i].text));
        }
        lemma_parts_strip(pieces.drop_last(), parts.drop_last());
        lemma_painted_strip(pieces[n].look, pieces[n].text, parts[n]);
        lemma_strip_concat(concat(parts.drop_last()), parts.last(), false);
        assert(pieces.map_values(|p: Piece| p.text).drop_last() == pieces.drop_last().map_values(
            |p: Piece| p.text,
        ));
        assert(pieces.map_values(|p: Piece| p.text).last() == pieces[n].text);
    } else {
        assert(pieces.map_values(|p: Piece| p.text) =~= Seq::<Seq<char>>::empty());
    }
}

/// Whatever the terminal's color support, stripping the escapes from a
/// rendering of pieces whose texts hold no escape gives the texts one after
/// the other.
pub proof fn lemma_renders_strip(pieces: Seq<Piece>, out: Seq<char>)
    requires
        renders(pieces, out),
        forall|i: int| 0 <= i < pieces.len() ==> no_escape(#[trigger] pieces[i].text),
    ensures
        strip_escapes(out) == texts(pieces),
        !ends_inside(out, false),
{
    let parts = choose|parts: Seq<Seq<char>>| paints(pieces, parts) && out == concat(parts);
    lemma_parts_strip(pieces, parts);
}

} // verus!
