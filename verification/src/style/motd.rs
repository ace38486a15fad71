use crate::style::{
    concat, lemma_paints_push, look, paint, paint_chars, painted, paints, piece, plain_look, renders,
    Effect, Hue, Look, LookSpec, Piece,
};
use crate::style::strip::{
    ends_inside, lemma_painted_strip_any, lemma_renders_strip, lemma_strip_concat,
    lemma_texts_prepend, no_escape, strip_escapes, texts,
};
use crate::text::{chars_of, hex_value, hex_value_of, is_lit, push_chars, string_of};
use vstd::string::StringSliceAdditionalSpecFns;
use vstd::utf8::encode_utf8;
use crate::types::{ChatComponent, Description};
use vstd::prelude::*;

verus! {

/// The formatting in force while reading legacy `§` codes.
#[derive(Clone, Copy, Debug, PartialEq, Eq)]
pub struct LegacyState {
    pub color: Option<Hue>,
    pub bold: bool,
    pub italic: bool,
    pub underline: bool,
    pub strike: bool,
}

impl LegacyState {
    pub open spec fn initial_spec() -> LegacyState {
        LegacyState { color: None, bold: false, italic: false, underline: false, strike: false }
    }

    /// No color, no effect.
    pub fn initial() -> (res: LegacyState)
        ensures
            res == LegacyState::initial_spec(),
    {
        LegacyState { color: None, bold: false, italic: false, underline: false, strike: false }
    }
}

/// The color a legacy color code selects.
pub open spec fn legacy_color(code: char) -> Option<Hue> {
    match code {
        '0' => Some(Hue::Black),
        '1' => Some(Hue::Blue),
        '2' => Some(Hue::Green),
        '3' => Some(Hue::Cyan),
        '4' => Some(Hue::Red),
        '5' => Some(Hue::Magenta),
        '6' => Some(Hue::Rgb(255, 170, 0)),
        '7' => Some(Hue::Rgb(170, 170, 170)),
        '8' => Some(Hue::Rgb(85, 85, 85)),
        '9' => Some(Hue::Rgb(85, 85, 255)),
        'a' | 'A' => Some(Hue::Rgb(85, 255, 85)),
        'b' | 'B' => Some(Hue::Rgb(85, 255, 255)),
        'c' | 'C' => Some(Hue::Rgb(255, 85, 85)),
        'd' | 'D' => Some(Hue::Rgb(255, 85, 255)),
        'e' | 'E' => Some(Hue::Rgb(255, 255, 85)),
        'f' | 'F' => Some(Hue::White),
        _ => None,
    }
}

/// The state after the code `code`, or `None` for a code that is not one.
/// A color code sets the color and clears the effects; `l`, `o`, `n` and `m`
/// turn on bold, italic, underline and strikethrough; `k` changes nothing;
/// `r` resets everything.
pub open spec fn apply_code(st: LegacyState, code: char) -> Option<LegacyState> {
    if legacy_color(code) is Some {
        Some(
            LegacyState {
                color: legacy_color(code),
                bold: false,
                italic: false,
                underline: false,
                strike: false,
            },
        )
    } else {
        match code {
            'l' | 'L' => Some(LegacyState { bold: true, ..st }),
            'o' | 'O' => Some(LegacyState { italic: true, ..st }),
            'n' | 'N' => Some(LegacyState { underline: true, ..st }),
            'm' | 'M' => Some(LegacyState { strike: true, ..st }),
            'k' | 'K' => Some(st),
            'r' | 'R' => Some(LegacyState::initial_spec()),
            _ => None,
        }
    }
}

/// The look a character is painted with in state `st`.
pub open spec fn state_look(st: LegacyState) -> LookSpec {
    look(
        st.color,
        (if st.bold {
            seq![Effect::Bold]
        } else {
            seq![]
        }) + (if st.italic {
            seq![Effect::Italic]
        } else {
            seq![]
        }) + (if st.underline {
            seq![Effect::Underline]
        } else {
            seq![]
        }) + (if st.strike {
            seq![Effect::Strikethrough]
        } else {
            seq![]
        }),
    )
}

/// The pieces legacy text is shown as, starting in state `st`: each ordinary
/// character painted with the current look; a `§` with a known code changes
/// the state and shows nothing; a `§` with an unknown code shows both
/// characters unpainted; a `§` at the very end shows nothing.
pub open spec fn legacy_pieces(text: Seq<char>, st: LegacyState) -> Seq<Piece>
    decreases text.len(),
{
    if text.len() == 0 {
        seq![]
    } else if text[0] == '\u{a7}' {
        if text.len() == 1 {
            seq![]
        } else {
            match apply_code(st, text[1]) {
                Some(st2) => legacy_pieces(text.skip(2), st2),
                None => seq![piece(seq!['\u{a7}', text[1]], plain_look())] + legacy_pieces(
                    text.skip(2),
                    st,
                ),
            }
        }
    } else {
        seq![piece(seq![text[0]], state_look(st))] + legacy_pieces(text.skip(1), st)
    }
}

/// Whether `c`, after a `§`, is a formatting code: a color (`0` to `9`,
/// `a` to `f`) or one of `k`, `l`, `m`, `n`, `o`, `r`, in either case.
pub open spec fn is_legacy_code(c: char) -> bool {
    legacy_color(c) is Some || c == 'k' || c == 'K' || c == 'l' || c == 'L' || c == 'm' || c == 'M'
        || c == 'n' || c == 'N' || c == 'o' || c == 'O' || c == 'r' || c == 'R'
}

/// The text legacy `§` text shows, read from the left: each `§` and the
/// formatting code after it removed, a `§` followed by anything else kept
/// with that character, a `§` at the very end dropped.
pub open spec fn legacy_visible(t: Seq<char>) -> Seq<char>
    decreases t.len(),
{
    if t.len() == 0 {
        seq![]
    } else if t[0] == '\u{a7}' {
        if t.len() == 1 {
            seq![]
        } else if is_legacy_code(t[1]) {
            legacy_visible(t.skip(2))
        } else {
            seq!['\u{a7}', t[1]] + legacy_visible(t.skip(2))
        }
    } else {
        seq![t[0]] + legacy_visible(t.skip(1))
    }
}

proof fn lemma_no_escape_skip(t: Seq<char>, n: int)
    requires
        no_escape(t),
        0 <= n <= t.len(),
    ensures
        no_escape(t.skip(n)),
{
    assert forall|k: int| 0 <= k < t.skip(n).len() implies #[trigger] t.skip(n)[k] != '\x1b' by {
        assert(t.skip(n)[k] == t[k + n]);
    }
}

proof fn lemma_legacy_texts(t: Seq<char>, st: LegacyState)
    requires
        no_escape(t),
    ensures
        texts(legacy_pieces(t, st)) == legacy_visible(t),
        forall|i: int|
            0 <= i < legacy_pieces(t, st).len() ==> no_escape(#[trigger] legacy_pieces(t, st)[i].text),
    decreases t.len(),
{
    let ps = legacy_pieces(t, st);
    if t.len() == 0 {
        assert(ps.map_values(|p: Piece| p.text) =~= Seq::<Seq<char>>::empty());
    } else if t[0] == '\u{a7}' {
        if t.len() == 1 {
            assert(ps.map_values(|p: Piece| p.text) =~= Seq::<Seq<char>>::empty());
        } else {
            lemma_no_escape_skip(t, 2);
            assert(apply_code(st, t[1]) is Some <==> is_legacy_code(t[1]));
            match apply_code(st, t[1]) {
                Some(st2) => {
                    lemma_legacy_texts(t.skip(2), st2);
                },
                None => {
                    lemma_legacy_texts(t.skip(2), st);
                    let p = piece(seq!['\u{a7}', t[1]], plain_look());
                    let rest = legacy_pieces(t.skip(2), st);
                    lemma_texts_prepend(p, rest);
                    assert(t[1] != '\x1b');
                    assert(no_escape(p.text));
                    assert forall|i: int| 0 <= i < ps.len() implies no_escape(#[trigger] ps[i].text) by {
                        if i > 0 {
                            assert(ps[i] == rest[i - 1]);
                        }
                    }
                },
            }
        }
    } else {
        lemma_no_escape_skip(t, 1);
        lemma_legacy_texts(t.skip(1), st);
        let p = piece(seq![t[0]], state_look(st));
        let rest = legacy_pieces(t.skip(1), st);
        lemma_texts_prepend(p, rest);
        assert(t[0] != '\x1b');
        assert(no_escape(p.text));
        assert forall|i: int| 0 <= i < ps.len() implies no_escape(#[trigger] ps[i].text) by {
            if i > 0 {
                assert(ps[i] == rest[i - 1]);
            }
        }
    }
}

/// Whatever the terminal's color support, the escapes stripped from the
/// rendering of legacy text without escape characters leave the text with
/// its formatting codes removed, as `legacy_visible` reads it.
pub proof fn lemma_legacy_stripped(t: Seq<char>, out: Seq<char>)
    requires
        no_escape(t),
        renders(legacy_pieces(t, LegacyState::initial_spec()), out),
    ensures
        strip_escapes(out) == legacy_visible(t),
        !ends_inside(out, false),
{
    lemma_legacy_texts(t, LegacyState::initial_spec());
    lemma_renders_strip(legacy_pieces(t, LegacyState::initial_spec()), out);
}

/// What each `§` code does to the formatting, for every state: `l`, `o`,
/// `n`, `m` (either case) turn on bold, italic, underline and strikethrough
/// and keep everything else; `k` changes nothing; `r` resets to no color and
/// no effect; a color code (`0` to `9`, `a` to `f`, either case) selects a
/// color and turns every effect off; anything else is not a code.
pub proof fn lemma_legacy_code_states(st: LegacyState, c: char)
    ensures
        apply_code(st, 'l') == Some(LegacyState { bold: true, ..st }),
        apply_code(st, 'L') == Some(LegacyState { bold: true, ..st }),
        apply_code(st, 'o') == Some(LegacyState { italic: true, ..st }),
        apply_code(st, 'O') == Some(LegacyState { italic: true, ..st }),
        apply_code(st, 'n') == Some(LegacyState { underline: true, ..st }),
        apply_code(st, 'N') == Some(LegacyState { underline: true, ..st }),
        apply_code(st, 'm') == Some(LegacyState { strike: true, ..st }),
        apply_code(st, 'M') == Some(LegacyState { strike: true, ..st }),
        apply_code(st, 'k') == Some(st),
        apply_code(st, 'K') == Some(st),
        apply_code(st, 'r') == Some(
            LegacyState { color: None, bold: false, italic: false, underline: false, strike: false },
        ),
        apply_code(st, 'R') == Some(
            LegacyState { color: None, bold: false, italic: false, underline: false, strike: false },
        ),
        ('0' <= c <= '9' || 'a' <= c <= 'f' || 'A' <= c <= 'F') ==> legacy_color(c) is Some
            && apply_code(st, c) == Some(
            LegacyState {
                color: legacy_color(c),
                bold: false,
                italic: false,
                underline: false,
                strike: false,
            },
        ),
        !('0' <= c <= '9' || 'a' <= c <= 'f' || 'A' <= c <= 'F') && !(c == 'k' || c == 'K' || c
            == 'l' || c == 'L' || c == 'm' || c == 'M' || c == 'n' || c == 'N' || c == 'o' || c
            == 'O' || c == 'r' || c == 'R') ==> apply_code(st, c) is None,
{
}

/// The first piece of legacy text that starts with `§` and `code` and then
/// an ordinary character.
pub open spec fn piece_after(code: char, st: LegacyState, t: Seq<char>) -> Piece {
    legacy_pieces(seq!['\u{a7}', code] + t, st)[0]
}

/// The character right after a code is shown painted as the code says,
/// whatever came before: after `§l` bold, after `§o` italic, after `§n`
/// underlined, after `§m` struck through, each keeping the color; after
/// `§r` with no color and no effect; after a color code in that color with
/// no effect.
pub proof fn lemma_code_paints_next(st: LegacyState, code: char, t: Seq<char>)
    requires
        t.len() > 0,
        t[0] != '\u{a7}',
    ensures
        apply_code(st, code) is Some ==> piece_after(code, st, t).text == seq![t[0]],
        (code == 'l' || code == 'L') ==> piece_after(code, st, t).look.effects.contains(Effect::Bold)
            && piece_after(code, st, t).look.fg == st.color,
        (code == 'o' || code == 'O') ==> piece_after(code, st, t).look.effects.contains(
            Effect::Italic,
        ) && piece_after(code, st, t).look.fg == st.color,
        (code == 'n' || code == 'N') ==> piece_after(code, st, t).look.effects.contains(
            Effect::Underline,
        ) && piece_after(code, st, t).look.fg == st.color,
        (code == 'm' || code == 'M') ==> piece_after(code, st, t).look.effects.contains(
            Effect::Strikethrough,
        ) && piece_after(code, st, t).look.fg == st.color,
        (code == 'r' || code == 'R') ==> piece_after(code, st, t).look.fg is None && piece_after(
            code,
            st,
            t,
        ).look.effects.len() == 0,
        legacy_color(code) is Some ==> piece_after(code, st, t).look.fg == legacy_color(code)
            && piece_after(code, st, t).look.effects.len() == 0,
{
    lemma_piece_after(st, code, t);
    lemma_legacy_code_states(st, code);
    if let Some(st2) = apply_code(st, code) {
        lemma_look_effects(st2);
    }
}

proof fn lemma_piece_after(st: LegacyState, code: char, t: Seq<char>)
    requires
        t.len() > 0,
        t[0] != '\u{a7}',
    ensures
        apply_code(st, code) matches Some(st2) ==> piece_after(code, st, t) == piece(
            seq![t[0]],
            state_look(st2),
        ),
{
    let s = seq!['\u{a7}', code] + t;
    assert(s[0] == '\u{a7}' && s[1] == code && s.len() >= 2);
    assert(s.skip(2) =~= t);
    if let Some(st2) = apply_code(st, code) {
        assert(legacy_pieces(s, st) == legacy_pieces(s.skip(2), st2));
        assert(t[0] != '\u{a7}');
        assert(legacy_pieces(t, st2) == seq![piece(seq![t[0]], state_look(st2))] + legacy_pieces(
            t.skip(1),
            st2,
        ));
        assert(legacy_pieces(t, st2)[0] == piece(seq![t[0]], state_look(st2)));
    }
}

proof fn lemma_look_effects(st: LegacyState)
    ensures
        state_look(st).fg == st.color,
        st.bold ==> state_look(st).effects.contains(Effect::Bold),
        st.italic ==> state_look(st).effects.contains(Effect::Italic),
        st.underline ==> state_look(st).effects.contains(Effect::Underline),
        st.strike ==> state_look(st).effects.contains(Effect::Strikethrough),
        !st.bold && !st.italic && !st.underline && !st.strike ==> state_look(st).effects.len() == 0,
{
    let e = state_look(st).effects;
    let b: int = if st.bold { 1 } else { 0 };
    let i: int = if st.italic { 1 } else { 0 };
    let u: int = if st.underline { 1 } else { 0 };
    if st.bold {
        assert(e[0] == Effect::Bold);
    }
    if st.italic {
        assert(e[b] == Effect::Italic);
    }
    if st.underline {
        assert(e[b + i] == Effect::Underline);
    }
    if st.strike {
        assert(e[b + i + u] == Effect::Strikethrough);
    }
}

/// The sixteen color codes select the colors of the sixteen named chat
/// colors, in the usual order (`0` black, `1` dark blue, ... `f` white), and
/// an upper-case letter selects what its lower-case letter does.
pub proof fn lemma_color_codes_match_names()
    ensures
        legacy_color('0') == named_color("black"@),
        legacy_color('1') == named_color("dark_blue"@),
        legacy_color('2') == named_color("dark_green"@),
        legacy_color('3') == named_color("dark_aqua"@),
        legacy_color('4') == named_color("dark_red"@),
        legacy_color('5') == named_color("dark_purple"@),
        legacy_color('6') == named_color("gold"@),
        legacy_color('7') == named_color("gray"@),
        legacy_color('8') == named_color("dark_gray"@),
        legacy_color('9') == named_color("blue"@),
        legacy_color('a') == named_color("green"@),
        legacy_color('b') == named_color("aqua"@),
        legacy_color('c') == named_color("red"@),
        legacy_color('d') == named_color("light_purple"@),
        legacy_color('e') == named_color("yellow"@),
        legacy_color('f') == named_color("white"@),
        legacy_color('A') == legacy_color('a') && legacy_color('B') == legacy_color('b')
            && legacy_color('C') == legacy_color('c') && legacy_color('D') == legacy_color('d')
            && legacy_color('E') == legacy_color('e') && legacy_color('F') == legacy_color('f'),
{
    reveal_strlit("black");
    reveal_strlit("dark_blue");
    reveal_strlit("dark_green");
    reveal_strlit("dark_aqua");
    reveal_strlit("dark_red");
    reveal_strlit("dark_purple");
    reveal_strlit("gold");
    reveal_strlit("gray");
    reveal_strlit("dark_gray");
    reveal_strlit("blue");
    reveal_strlit("green");
    reveal_strlit("aqua");
    reveal_strlit("red");
    reveal_strlit("light_purple");
    reveal_strlit("yellow");
    reveal_strlit("white");
    assert("black"@.len() == 5 && "black"@[0] == 'b' && "black"@[1] == 'l');
    assert("dark_blue"@.len() == 9 && "dark_blue"@[0] == 'd' && "dark_blue"@[1] == 'a' && "dark_blue"@[5] == 'b');
    assert("dark_green"@.len() == 10 && "dark_green"@[0] == 'd' && "dark_green"@[1] == 'a' && "dark_green"@[5] == 'g');
    assert("dark_aqua"@.len() == 9 && "dark_aqua"@[0] == 'd' && "dark_aqua"@[1] == 'a' && "dark_aqua"@[5] == 'a');
    assert("dark_red"@.len() == 8 && "dark_red"@[0] == 'd' && "dark_red"@[1] == 'a' && "dark_red"@[5] == 'r');
    assert("dark_purple"@.len() == 11 && "dark_purple"@[0] == 'd' && "dark_purple"@[1] == 'a' && "dark_purple"@[5] == 'p');
    assert("gold"@.len() == 4 && "gold"@[0] == 'g' && "gold"@[1] == 'o');
    assert("gray"@.len() == 4 && "gray"@[0] == 'g' && "gray"@[1] == 'r');
    assert("dark_gray"@.len() == 9 && "dark_gray"@[0] == 'd' && "dark_gray"@[1] == 'a' && "dark_gray"@[5] == 'g');
    assert("blue"@.len() == 4 && "blue"@[0] == 'b' && "blue"@[1] == 'l');
    assert("green"@.len() == 5 && "green"@[0] == 'g' && "green"@[1] == 'r');
    assert("aqua"@.len() == 4 && "aqua"@[0] == 'a' && "aqua"@[1] == 'q');
    assert("red"@.len() == 3 && "red"@[0] == 'r' && "red"@[1] == 'e');
    assert("light_purple"@.len() == 12 && "light_purple"@[0] == 'l' && "light_purple"@[1] == 'i' && "light_purple"@[5] == '_');
    assert("yellow"@.len() == 6 && "yellow"@[0] == 'y' && "yellow"@[1] == 'e' && "yellow"@[5] == 'w');
    assert("white"@.len() == 5 && "white"@[0] == 'w' && "white"@[1] == 'h');
}

fn legacy_color_of(code: char) -> (res: Option<Hue>)
    ensures
        res == legacy_color(code),
{
    match code {
        '0' => Some(Hue::Black),
        '1' => Some(Hue::Blue),
        '2' => Some(Hue::Green),
        '3' => Some(Hue::Cyan),
        '4' => Some(Hue::Red),
        '5' => Some(Hue::Magenta),
        '6' => Some(Hue::Rgb(255, 170, 0)),
        '7' => Some(Hue::Rgb(170, 170, 170)),
        '8' => Some(Hue::Rgb(85, 85, 85)),
        '9' => Some(Hue::Rgb(85, 85, 255)),
        'a' | 'A' => Some(Hue::Rgb(85, 255, 85)),
        'b' | 'B' => Some(Hue::Rgb(85, 255, 255)),
        'c' | 'C' => Some(Hue::Rgb(255, 85, 85)),
        'd' | 'D' => Some(Hue::Rgb(255, 85, 255)),
        'e' | 'E' => Some(Hue::Rgb(255, 255, 85)),
        'f' | 'F' => Some(Hue::White),
        _ => None,
    }
}

fn next_state(st: LegacyState, code: char) -> (res: Option<LegacyState>)
    ensures
        res == apply_code(st, code),
{
    let color = legacy_color_of(code);
    if color.is_some() {
        return Some(
            LegacyState { color, bold: false, italic: false, underline: false, strike: false },
        );
    }
    match code {
        'l' | 'L' => Some(LegacyState { bold: true, ..st }),
        'o' | 'O' => Some(LegacyState { italic: true, ..st }),
        'n' | 'N' => Some(LegacyState { underline: true, ..st }),
        'm' | 'M' => Some(LegacyState { strike: true, ..st }),
        'k' | 'K' => Some(st),
        'r' | 'R' => Some(LegacyState::initial()),
        _ => None,
    }
}

fn look_of_state(st: LegacyState) -> (res: Look)
    ensures
        res.spec() == state_look(st),
{
    let mut l = match st.color {
        Some(c) => Look::fg(c),
        None => Look::plain(),
    };
    let ghost e0 = l.effects@;
    if st.bold {
        l = l.with(Effect::Bold);
    }
    if st.italic {
        l = l.with(Effect::Italic);
    }
    if st.underline {
        l = l.with(Effect::Underline);
    }
    if st.strike {
        l = l.with(Effect::Strikethrough);
    }
    proof {
        assert(l.effects@ =~= state_look(st).effects);
    }
    l
}

/// Render legacy `§` formatting codes into ANSI.
pub fn render_legacy_codes(text: &str) -> (res: String)
    ensures
        renders(legacy_pieces(text@, LegacyState::initial_spec()), res@),
{
    let chars = chars_of(text);
    let mut out: Vec<char> = Vec::new();
    let mut st = LegacyState::initial();
    let mut i: usize = 0;
    let ghost mut pieces: Seq<Piece> = seq![];
    let ghost mut parts: Seq<Seq<char>> = seq![];
    proof {
        assert(chars@.skip(0) =~= chars@);
        assert(pieces + legacy_pieces(chars@, st) =~= legacy_pieces(chars@, st));
    }
    while i < chars.len()
        invariant
            i <= chars@.len(),
            chars@ == text@,
            legacy_pieces(chars@, LegacyState::initial_spec()) == pieces + legacy_pieces(
                chars@.skip(i as int),
                st,
            ),
            paints(pieces, parts),
            out@ == concat(parts),
        decreases chars@.len() - i,
    {
        let ch = chars[i];
        let ghost rest = chars@.skip(i as int);
        assert(rest[0] == ch);
        if ch == '\u{a7}' {
            if i + 1 < chars.len() {
                let code = chars[i + 1];
                assert(rest[1] == code);
                assert(rest.skip(2) =~= chars@.skip(i + 2));
                match next_state(st, code) {
                    Some(st2) => {
                        st = st2;
                    },
                    None => {
                        let ghost p = piece(seq!['\u{a7}', code], plain_look());
                        let ghost part = seq!['\u{a7}', code];
                        proof {
                            lemma_paints_push(pieces, parts, p, part);
                            assert(pieces + (seq![p] + legacy_pieces(chars@.skip(i + 2), st)) == (
                            pieces.push(p)) + legacy_pieces(chars@.skip(i + 2), st));
                            pieces = pieces.push(p);
                            parts = parts.push(part);
                        }
                        out.push('\u{a7}');
                        out.push(code);
                    },
                }
                i += 2;
            } else {
                assert(chars@.skip(i + 1) =~= seq![]);
                assert(pieces + legacy_pieces(rest, st) == pieces);
                i += 1;
            }
        } else {
            let l = look_of_state(st);
            let mut one: Vec<char> = Vec::new();
            one.push(ch);
            let part = paint_chars(&one, &l);
            let ghost p = piece(seq![ch], state_look(st));
            proof {
                assert(one@ == seq![ch]);
                lemma_paints_push(pieces, parts, p, part@);
                assert(rest.skip(1) =~= chars@.skip(i + 1));
                assert(pieces + (seq![p] + legacy_pieces(chars@.skip(i + 1), st)) == (pieces.push(
                    p,
                )) + legacy_pieces(chars@.skip(i + 1), st));
                pieces = pieces.push(p);
                parts = parts.push(part@);
            }
            push_chars(&mut out, &part);
            i += 1;
        }
    }
    proof {
        assert(chars@.skip(i as int) =~= seq![]);
        assert(pieces + seq![] == pieces);
    }
    string_of(&out)
}

} // verus!

verus! {

/// What `u8::from_str_radix(s, 16)` gives for the two-byte text `b0 b1`:
/// two hex digits, or a `+` sign and one hex digit.
pub open spec fn hex_pair(b0: u8, b1: u8) -> Option<u8> {
    match (hex_value(b0), hex_value(b1)) {
        (Some(h), Some(l)) => Some((h * 16 + l) as u8),
        (None, Some(l)) => if b0 == 43 {
            Some(l)
        } else {
            None
        },
        _ => None,
    }
}

/// The color named by a Minecraft chat color name.
pub open spec fn named_color(name: Seq<char>) -> Option<Hue> {
    if name == "black"@ {
        Some(Hue::Black)
    } else if name == "dark_blue"@ {
        Some(Hue::Blue)
    } else if name == "dark_green"@ {
        Some(Hue::Green)
    } else if name == "dark_aqua"@ {
        Some(Hue::Cyan)
    } else if name == "dark_red"@ {
        Some(Hue::Red)
    } else if name == "dark_purple"@ {
        Some(Hue::Magenta)
    } else if name == "gold"@ {
        Some(Hue::Rgb(255, 170, 0))
    } else if name == "gray"@ {
        Some(Hue::Rgb(170, 170, 170))
    } else if name == "dark_gray"@ {
        Some(Hue::Rgb(85, 85, 85))
    } else if name == "blue"@ {
        Some(Hue::Rgb(85, 85, 255))
    } else if name == "green"@ {
        Some(Hue::Rgb(85, 255, 85))
    } else if name == "aqua"@ {
        Some(Hue::Rgb(85, 255, 255))
    } else if name == "red"@ {
        Some(Hue::Rgb(255, 85, 85))
    } else if name == "light_purple"@ {
        Some(Hue::Rgb(255, 85, 255))
    } else if name == "yellow"@ {
        Some(Hue::Rgb(255, 255, 85))
    } else if name == "white"@ {
        Some(Hue::White)
    } else {
        None
    }
}

/// The color a chat component's `color` value selects: `#RRGGBB` (seven
/// bytes starting with `#`, each pair read as a hex byte), or a named color.
pub open spec fn chat_color(name: Seq<char>) -> Option<Hue> {
    let b = encode_utf8(name);
    if name.len() > 0 && name[0] == '#' && b.len() == 7 {
        match (hex_pair(b[1], b[2]), hex_pair(b[3], b[4]), hex_pair(b[5], b[6])) {
            (Some(r), Some(g), Some(bl)) => Some(Hue::Rgb(r, g, bl)),
            _ => None,
        }
    } else {
        named_color(name)
    }
}

/// The characters `#RRGGBB` that name the color `(r, g, b)` in upper-case hex.
pub open spec fn rgb_text(r: u8, g: u8, b: u8) -> Seq<char> {
    seq!['#'] + crate::text::hex2_upper(r) + crate::text::hex2_upper(g) + crate::text::hex2_upper(b)
}

proof fn lemma_hex_digit_back(d: nat)
    requires
        d < 16,
    ensures
        (crate::text::hex_digit_upper(d) as u32) < 128,
        hex_value(crate::text::hex_digit_upper(d) as u32 as u8) == Some(d as u8),
{
    let c = crate::text::hex_digit_upper(d);
    if d < 10 {
        assert(c as u32 == 48 + d);
    } else {
        assert(c as u32 == 55 + d);
    }
}

/// A chat color written `#RRGGBB` selects exactly that RGB color, for every
/// color.
pub proof fn lemma_chat_color_hex(r: u8, g: u8, b: u8)
    ensures
        chat_color(rgb_text(r, g, b)) == Some(Hue::Rgb(r, g, b)),
{
    let t = rgb_text(r, g, b);
    let ds = seq![
        (r / 16) as nat,
        (r % 16) as nat,
        (g / 16) as nat,
        (g % 16) as nat,
        (b / 16) as nat,
        (b % 16) as nat,
    ];
    assert(t.len() == 7 && t[0] == '#');
    assert forall|k: int| 1 <= k < 7 implies t[k] == crate::text::hex_digit_upper(#[trigger] ds[k - 1]) by {}
    assert forall|k: int| 0 <= k < 6 implies (crate::text::hex_digit_upper(#[trigger] ds[k]) as u32) < 128
        && hex_value(crate::text::hex_digit_upper(ds[k]) as u32 as u8) == Some(ds[k] as u8) by {
        lemma_hex_digit_back(ds[k]);
    }
    assert forall|k: int| 0 <= k < t.len() implies (#[trigger] t[k]) as u32 <= 0x7F by {
        if k > 0 {
            assert(t[k] == crate::text::hex_digit_upper(ds[k - 1]));
        }
    }
    crate::net::resolve::lemma_encode_ascii(t);
    let e = encode_utf8(t);
    assert forall|k: int| 1 <= k < 7 implies hex_value(#[trigger] e[k]) == Some(ds[k - 1] as u8) by {
        assert(e[k] as u32 == t[k] as u32);
        assert(t[k] == crate::text::hex_digit_upper(ds[k - 1]));
        assert(e[k] == (t[k] as u32) as u8);
    }
    assert(hex_value(e[1]) == Some((r / 16) as u8) && hex_value(e[2]) == Some((r % 16) as u8));
    assert(hex_value(e[3]) == Some((g / 16) as u8) && hex_value(e[4]) == Some((g % 16) as u8));
    assert(hex_value(e[5]) == Some((b / 16) as u8) && hex_value(e[6]) == Some((b % 16) as u8));
    assert(((r / 16) as u8 * 16 + (r % 16) as u8) as u8 == r);
    assert(((g / 16) as u8 * 16 + (g % 16) as u8) as u8 == g);
    assert(((b / 16) as u8 * 16 + (b % 16) as u8) as u8 == b);
}

fn hex_pair_of(b0: u8, b1: u8) -> (res: Option<u8>)
    ensures
        res == hex_pair(b0, b1),
{
    match (hex_value_of(b0), hex_value_of(b1)) {
        (Some(h), Some(l)) => Some(h * 16 + l),
        (None, Some(l)) => if b0 == 43 {
            Some(l)
        } else {
            None
        },
        _ => None,
    }
}

fn named_color_of(name: &Vec<char>) -> (res: Option<Hue>)
    ensures
        res == named_color(name@),
{
    if is_lit(name, "black") {
        Some(Hue::Black)
    } else if is_lit(name, "dark_blue") {
        Some(Hue::Blue)
    } else if is_lit(name, "dark_green") {
        Some(Hue::Green)
    } else if is_lit(name, "dark_aqua") {
        Some(Hue::Cyan)
    } else if is_lit(name, "dark_red") {
        Some(Hue::Red)
    } else if is_lit(name, "dark_purple") {
        Some(Hue::Magenta)
    } else if is_lit(name, "gold") {
        Some(Hue::Rgb(255, 170, 0))
    } else if is_lit(name, "gray") {
        Some(Hue::Rgb(170, 170, 170))
    } else if is_lit(name, "dark_gray") {
        Some(Hue::Rgb(85, 85, 85))
    } else if is_lit(name, "blue") {
        Some(Hue::Rgb(85, 85, 255))
    } else if is_lit(name, "green") {
        Some(Hue::Rgb(85, 255, 85))
    } else if is_lit(name, "aqua") {
        Some(Hue::Rgb(85, 255, 255))
    } else if is_lit(name, "red") {
        Some(Hue::Rgb(255, 85, 85))
    } else if is_lit(name, "light_purple") {
        Some(Hue::Rgb(255, 85, 255))
    } else if is_lit(name, "yellow") {
        Some(Hue::Rgb(255, 255, 85))
    } else if is_lit(name, "white") {
        Some(Hue::White)
    } else {
        None
    }
}

/// Map Minecraft named colors (from JSON chat) to terminal colors.
pub fn mc_color_to_colored(name: &str) -> (res: Option<Hue>)
    ensures
        res == chat_color(name@),
{
    let b = name.as_bytes();
    let chars = chars_of(name);
    if chars.len() > 0 && chars[0] == '#' && b.len() == 7 {
        let r = hex_pair_of(b[1], b[2]);
        let g = hex_pair_of(b[3], b[4]);
        let bl = hex_pair_of(b[5], b[6]);
        return match (r, g, bl) {
            (Some(r), Some(g), Some(bl)) => Some(Hue::Rgb(r, g, bl)),
            _ => None,
        };
    }
    named_color_of(&chars)
}

} // verus!

verus! {

/// Whether a component sets any of the styling the renderer honours.
pub open spec fn has_explicit_style(c: ChatComponent) -> bool {
    c.color is Some || c.bold is Some || c.italic is Some || c.underlined is Some
        || c.strikethrough is Some
}

/// The look a component's own styling gives its text.
pub open spec fn component_look(c: ChatComponent) -> LookSpec {
    look(
        match c.color {
            Some(name) => chat_color(name@),
            None => None,
        },
        (if c.bold == Some(true) {
            seq![Effect::Bold]
        } else {
            seq![]
        }) + (if c.italic == Some(true) {
            seq![Effect::Italic]
        } else {
            seq![]
        }) + (if c.underlined == Some(true) {
            seq![Effect::Underline]
        } else {
            seq![]
        }) + (if c.strikethrough == Some(true) {
            seq![Effect::Strikethrough]
        } else {
            seq![]
        }) + (if c.obfuscated == Some(true) {
            seq![Effect::Dimmed]
        } else {
            seq![]
        }),
    )
}

/// `out` is what styling `text` with component `c` may give: the legacy codes
/// of the text are rendered first, then, when the component sets styling of
/// its own, the result is painted with the component's look.
pub open spec fn styled_text(text: Seq<char>, c: ChatComponent, out: Seq<char>) -> bool {
    exists|base: Seq<char>|
        #![trigger renders(legacy_pieces(text, LegacyState::initial_spec()), base)]
        renders(legacy_pieces(text, LegacyState::initial_spec()), base) && if has_explicit_style(c) {
            painted(component_look(c), base, out)
        } else {
            out == base
        }
}

/// `out` is what rendering component `c` may give: its text (when not empty),
/// then its translation key, each styled with the component, then each child
/// rendered in turn.
pub open spec fn component_output(c: ChatComponent, out: Seq<char>) -> bool
    decreases c, 0nat,
{
    exists|a: Seq<char>, b: Seq<char>, k: Seq<char>|
        #![trigger a + b + k]
        {
            &&& (if c.text@.len() == 0 {
                a == Seq::<char>::empty()
            } else {
                styled_text(c.text@, c, a)
            })
            &&& (match c.translate {
                Some(t) => styled_text(t@, c, b),
                None => b == Seq::<char>::empty(),
            })
            &&& children_output(c.extra@, k)
            &&& out == a + b + k
        }
}

/// `out` is what rendering the components one after the other may give.
pub open spec fn children_output(cs: Seq<ChatComponent>, out: Seq<char>) -> bool
    decreases cs, 1nat,
{
    if cs.len() == 0 {
        out == Seq::<char>::empty()
    } else {
        exists|init: Seq<char>, last: Seq<char>|
            #![trigger init + last]
            out == init + last && children_output(cs.drop_last(), init) && component_output(
                cs.last(),
                last,
            )
    }
}

proof fn lemma_children_step(cs: Seq<ChatComponent>, i: int, init: Seq<char>, last: Seq<char>)
    requires
        0 <= i < cs.len(),
        children_output(cs.take(i), init),
        component_output(cs[i], last),
    ensures
        children_output(cs.take(i + 1), init + last),
{
    assert(cs.take(i + 1).drop_last() =~= cs.take(i));
}

} // verus!

verus! {

fn component_look_of(comp: &ChatComponent) -> (res: Look)
    ensures
        res.spec() == component_look(*comp),
{
    let fg = match &comp.color {
        Some(name) => mc_color_to_colored(name.as_str()),
        None => None,
    };
    let mut l = Look { fg, effects: Vec::new() };
    if comp.bold == Some(true) {
        l = l.with(Effect::Bold);
    }
    if comp.italic == Some(true) {
        l = l.with(Effect::Italic);
    }
    if comp.underlined == Some(true) {
        l = l.with(Effect::Underline);
    }
    if comp.strikethrough == Some(true) {
        l = l.with(Effect::Strikethrough);
    }
    if comp.obfuscated == Some(true) {
        l = l.with(Effect::Dimmed);
    }
    proof {
        assert(l.effects@ =~= component_look(*comp).effects);
    }
    l
}

/// Apply color and formatting from a ChatComponent to a string.
pub fn apply_style(text: &str, comp: &ChatComponent) -> (res: String)
    ensures
        styled_text(text@, *comp, res@),
{
    // First handle any legacy § codes in the text itself
    let base = render_legacy_codes(text);
    if comp.color.is_none() && comp.bold.is_none() && comp.italic.is_none()
        && comp.underlined.is_none() && comp.strikethrough.is_none() {
        return base;
    }
    let l = component_look_of(comp);
    let res = paint(base.as_str(), &l);
    proof {
        assert(renders(legacy_pieces(text@, LegacyState::initial_spec()), base@));
    }
    res
}

/// Render a `ChatComponent` tree into styled text.
pub fn render_component(comp: &ChatComponent) -> (res: String)
    ensures
        component_output(*comp, res@),
    decreases comp,
{
    let mut out: Vec<char> = Vec::new();
    let ghost mut a: Seq<char> = seq![];
    let ghost mut b: Seq<char> = seq![];
    if !comp.text.as_str().is_empty() {
        let styled = apply_style(comp.text.as_str(), comp);
        let sc = chars_of(styled.as_str());
        push_chars(&mut out, &sc);
        proof {
            a = sc@;
        }
    }
    if let Some(translate) = &comp.translate {
        let styled = apply_style(translate.as_str(), comp);
        let sc = chars_of(styled.as_str());
        push_chars(&mut out, &sc);
        proof {
            b = sc@;
        }
    }
    let ghost head = out@;
    let ghost mut kids: Seq<char> = seq![];
    let mut i: usize = 0;
    proof {
        assert(comp.extra@.take(0) =~= Seq::<ChatComponent>::empty());
        assert(head == head + kids);
    }
    while i < comp.extra.len()
        invariant
            i <= comp.extra@.len(),
            children_output(comp.extra@.take(i as int), kids),
            out@ == head + kids,
        decreases comp.extra@.len() - i,
    {
        proof {
            assert(decreases_to!(*comp => comp.extra@[i as int]));
        }
        let child = render_component(&comp.extra[i]);
        let cc = chars_of(child.as_str());
        push_chars(&mut out, &cc);
        proof {
            lemma_children_step(comp.extra@, i as int, kids, cc@);
            assert(out@ == head + (kids + cc@));
            kids = kids + cc@;
        }
        i += 1;
    }
    proof {
        assert(comp.extra@.take(i as int) =~= comp.extra@);
        assert(head == a + b);
        assert(out@ == a + b + kids);
    }
    string_of(&out)
}

// ── What a component shows ───────────────────────────

/// A component whose text and translation key, and those of all its
/// children, hold no escape character.
pub open spec fn component_plain(c: ChatComponent) -> bool
    decreases c, 0nat,
{
    &&& no_escape(c.text@)
    &&& (match c.translate {
        Some(t) => no_escape(t@),
        None => true,
    })
    &&& children_plain(c.extra@)
}

/// Components each plain in the sense of `component_plain`.
pub open spec fn children_plain(cs: Seq<ChatComponent>) -> bool
    decreases cs, 1nat,
{
    if cs.len() == 0 {
        true
    } else {
        children_plain(cs.drop_last()) && component_plain(cs.last())
    }
}

/// The text a component shows once escapes are stripped: its text, then its
/// translation key, each with its `§` codes read as `legacy_visible` reads
/// them, then what each child shows, in order.
pub open spec fn component_visible(c: ChatComponent) -> Seq<char>
    decreases c, 0nat,
{
    legacy_visible(c.text@) + (match c.translate {
        Some(t) => legacy_visible(t@),
        None => Seq::<char>::empty(),
    }) + children_visible(c.extra@)
}

/// What the components show, one after the other.
pub open spec fn children_visible(cs: Seq<ChatComponent>) -> Seq<char>
    decreases cs, 1nat,
{
    if cs.len() == 0 {
        Seq::<char>::empty()
    } else {
        children_visible(cs.drop_last()) + component_visible(cs.last())
    }
}

/// What components show one after another is what each shows in turn.
pub proof fn lemma_children_visible_concat(a: Seq<ChatComponent>, b: Seq<ChatComponent>)
    ensures
        children_visible(a + b) == children_visible(a) + children_visible(b),
    decreases b.len(),
{
    if b.len() == 0 {
        assert(a + b =~= a);
        assert(children_visible(a) + Seq::<char>::empty() =~= children_visible(a));
    } else {
        lemma_children_visible_concat(a, b.drop_last());
        assert((a + b).drop_last() =~= a + b.drop_last());
        assert((a + b).last() == b.last());
        assert(children_visible(a) + children_visible(b.drop_last()) + component_visible(b.last())
            =~= children_visible(a) + (children_visible(b.drop_last()) + component_visible(b.last())));
    }
}

proof fn lemma_styled_strip(text: Seq<char>, c: ChatComponent, out: Seq<char>)
    requires
        no_escape(text),
        styled_text(text, c, out),
    ensures
        strip_escapes(out) == legacy_visible(text),
        !ends_inside(out, false),
{
    let base = choose|base: Seq<char>|
        renders(legacy_pieces(text, LegacyState::initial_spec()), base) && if has_explicit_style(c) {
            painted(component_look(c), base, out)
        } else {
            out == base
        };
    lemma_legacy_stripped(text, base);
    if has_explicit_style(c) {
        lemma_painted_strip_any(component_look(c), base, out);
    }
}

proof fn lemma_empty_strip()
    ensures
        strip_escapes(Seq::<char>::empty()) == Seq::<char>::empty(),
        !ends_inside(Seq::<char>::empty(), false),
        legacy_visible(Seq::<char>::empty()) == Seq::<char>::empty(),
{
}

proof fn lemma_three_strip(a: Seq<char>, b: Seq<char>, k: Seq<char>)
    requires
        !ends_inside(a, false),
        !ends_inside(b, false),
        !ends_inside(k, false),
    ensures
        strip_escapes(a + b + k) == strip_escapes(a) + strip_escapes(b) + strip_escapes(k),
        !ends_inside(a + b + k, false),
{
    lemma_strip_concat(a, b, false);
    lemma_strip_concat(a + b, k, false);
}

proof fn lemma_component_strip(c: ChatComponent, out: Seq<char>)
    requires
        component_plain(c),
        component_output(c, out),
    ensures
        strip_escapes(out) == component_visible(c),
        !ends_inside(out, false),
    decreases c, 0nat,
{
    let (a, b, k) = choose|a: Seq<char>, b: Seq<char>, k: Seq<char>|
        {
            &&& (if c.text@.len() == 0 {
                a == Seq::<char>::empty()
            } else {
                styled_text(c.text@, c, a)
            })
            &&& (match c.translate {
                Some(t) => styled_text(t@, c, b),
                None => b == Seq::<char>::empty(),
            })
            &&& children_output(c.extra@, k)
            &&& out == a + b + k
        };
    lemma_empty_strip();
    if c.text@.len() == 0 {
        assert(c.text@ =~= Seq::<char>::empty());
    } else {
        lemma_styled_strip(c.text@, c, a);
    }
    match c.translate {
        Some(t) => {
            lemma_styled_strip(t@, c, b);
        },
        None => {},
    }
    lemma_children_strip(c.extra@, k);
    lemma_three_strip(a, b, k);
}

proof fn lemma_children_strip(cs: Seq<ChatComponent>, out: Seq<char>)
    requires
        children_plain(cs),
        children_output(cs, out),
    ensures
        strip_escapes(out) == children_visible(cs),
        !ends_inside(out, false),
    decreases cs, 1nat,
{
    if cs.len() == 0 {
        lemma_empty_strip();
    } else {
        let (init, last) = choose|init: Seq<char>, last: Seq<char>|
            out == init + last && children_output(cs.drop_last(), init) && component_output(
                cs.last(),
                last,
            );
        lemma_children_strip(cs.drop_last(), init);
        lemma_component_strip(cs.last(), last);
        lemma_strip_concat(init, last, false);
    }
}

/// Whatever the terminal's color support, stripping the escapes from a
/// rendered component whose texts hold no escape character leaves the text
/// and translation key of each component, in pre-order, with their `§`
/// formatting codes removed.
pub proof fn lemma_component_stripped(c: ChatComponent, out: Seq<char>)
    requires
        component_plain(c),
        component_output(c, out),
    ensures
        strip_escapes(out) == component_visible(c),
{
    lemma_component_strip(c, out);
}

/// `out` is what rendering a description may give: a plain string's legacy
/// codes, or the component tree.
pub open spec fn description_output(d: Description, out: Seq<char>) -> bool {
    match d {
        Description::Plain(s) => renders(legacy_pieces(s@, LegacyState::initial_spec()), out),
        Description::Component(c) => component_output(c, out),
    }
}

/// What a description shows once escapes are stripped.
pub open spec fn description_visible(d: Description) -> Seq<char> {
    match d {
        Description::Plain(s) => legacy_visible(s@),
        Description::Component(c) => component_visible(c),
    }
}

/// A description whose texts hold no escape character.
pub open spec fn description_plain(d: Description) -> bool {
    match d {
        Description::Plain(s) => no_escape(s@),
        Description::Component(c) => component_plain(c),
    }
}

/// Whatever the terminal's color support, a rendered description whose
/// texts hold no escape character shows, its escapes stripped, what
/// `description_visible` says: its text with the `§` formatting codes
/// removed, or for a component tree each text and translation key in
/// pre-order with those codes removed.
pub proof fn lemma_description_stripped(d: Description, out: Seq<char>)
    requires
        description_plain(d),
        description_output(d, out),
    ensures
        strip_escapes(out) == description_visible(d),
{
    match d {
        Description::Plain(s) => lemma_legacy_stripped(s@, out),
        Description::Component(c) => lemma_component_strip(c, out),
    }
}

/// Render a `Description` (MOTD) into ANSI-colored text.
pub fn render(description: &Description) -> (res: String)
    ensures
        description_output(*description, res@),
{
    match description {
        Description::Plain(s) => render_legacy_codes(s.as_str()),
        Description::Component(component) => render_component(component),
    }
}


proof fn lemma_concat_cons(x: Seq<char>, rest: Seq<Seq<char>>)
    ensures
        concat(seq![x] + rest) == x + concat(rest),
    decreases rest.len(),
{
    if rest.len() == 0 {
        assert(seq![x] + rest =~= seq![x]);
        assert(seq![x].drop_last() =~= Seq::<Seq<char>>::empty());
        assert(seq![x].last() == x);
        assert(concat(Seq::<Seq<char>>::empty()) == Seq::<char>::empty());
        assert(Seq::<char>::empty() + x =~= x + Seq::<char>::empty());
    } else {
        lemma_concat_cons(x, rest.drop_last());
        assert((seq![x] + rest).drop_last() =~= seq![x] + rest.drop_last());
        assert((seq![x] + rest).last() == rest.last());
        assert(x + concat(rest.drop_last()) + rest.last() =~= x + (concat(rest.drop_last())
            + rest.last()));
    }
}

proof fn lemma_legacy_pieces_plain(text: Seq<char>)
    requires
        !text.contains('\u{a7}'),
    ensures
        forall|i: int|
            0 <= i < legacy_pieces(text, LegacyState::initial_spec()).len() ==> crate::style::is_plain(
                #[trigger] legacy_pieces(text, LegacyState::initial_spec())[i].look,
            ),
        concat(legacy_pieces(text, LegacyState::initial_spec()).map_values(|p: Piece| p.text))
            == text,
    decreases text.len(),
{
    let st = LegacyState::initial_spec();
    let ps = legacy_pieces(text, st);
    if text.len() == 0 {
        assert(ps.map_values(|p: Piece| p.text) =~= Seq::<Seq<char>>::empty());
    } else {
        assert(text.contains(text[0]));
        let r = text.skip(1);
        assert(!r.contains('\u{a7}')) by {
            if r.contains('\u{a7}') {
                let k = choose|k: int| 0 <= k < r.len() && r[k] == '\u{a7}';
                assert(text[k + 1] == '\u{a7}');
            }
        }
        lemma_legacy_pieces_plain(r);
        let rest = legacy_pieces(r, st);
        let first = piece(seq![text[0]], state_look(st));
        assert(ps == seq![first] + rest);
        assert(state_look(st).effects =~= Seq::<Effect>::empty());
        assert forall|i: int| 0 <= i < ps.len() implies crate::style::is_plain(#[trigger] ps[i].look) by {
            if i > 0 {
                assert(ps[i] == rest[i - 1]);
            }
        }
        assert(ps.map_values(|p: Piece| p.text) =~= seq![seq![text[0]]] + rest.map_values(
            |p: Piece| p.text,
        ));
        lemma_concat_cons(seq![text[0]], rest.map_values(|p: Piece| p.text));
        assert(seq![text[0]] + r =~= text);
    }
}

/// Legacy text without formatting codes is shown as it is.
pub proof fn lemma_plain_legacy_text(text: Seq<char>, out: Seq<char>)
    requires
        !text.contains('\u{a7}'),
        renders(legacy_pieces(text, LegacyState::initial_spec()), out),
    ensures
        out == text,
{
    lemma_legacy_pieces_plain(text);
    crate::style::lemma_renders_plain(legacy_pieces(text, LegacyState::initial_spec()), out);
}

} // verus!
