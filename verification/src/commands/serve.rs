use crate::style::{accent, look, piece, plain_look, renders, Canvas, Effect, Hue, Look, LookSpec, Piece, BULLET, DOT};
use crate::text::{chars_of, dec, decimal_u128, is_lit, push_chars, push_str, string_of};
use crate::types::{ChatComponent, Description, ServerStatus};
use vstd::prelude::*;

verus! {

// ── mcstatus.io v2 structures ──────────────────────

#[derive(Debug, Clone)]
pub struct McStatusResponse {
    pub online: bool,
    pub host: String,
    pub port: u16,
    pub ip_address: Option<String>,
    pub eula_blocked: bool,
    pub retrieved_at: u64,
    pub expires_at: u64,
    pub version: Option<McVersion>,
    pub players: Option<McPlayers>,
    pub motd: Option<McMotd>,
    pub icon: Option<String>,
    pub mods: Vec<McMod>,
    pub software: Option<String>,
    pub plugins: Vec<McPlugin>,
    pub srv_record: Option<McSrvRecord>,
}

#[derive(Debug, Clone)]
pub struct McMod {
    pub name: String,
    pub version: String,
}

#[derive(Debug, Clone)]
pub struct McPlugin {
    pub name: String,
    pub version: Option<String>,
}

#[derive(Debug, Clone)]
pub struct McVersion {
    pub name_raw: String,
    pub name_clean: String,
    pub name_html: String,
    pub protocol: i32,
}

#[derive(Debug, Clone)]
pub struct McPlayers {
    pub online: i32,
    pub max: i32,
    pub list: Vec<McPlayerSample>,
}

#[derive(Debug, Clone)]
pub struct McPlayerSample {
    pub uuid: String,
    pub name_raw: String,
    pub name_clean: String,
    pub name_html: String,
}

#[derive(Debug, Clone)]
pub struct McMotd {
    pub raw: String,
    pub clean: String,
    pub html: String,
}

#[derive(Debug, Clone)]
pub struct McSrvRecord {
    pub host: String,
    pub port: u16,
}

// ── MOTD Utilities ───────────────────────────────────

/// The text of a component and of its children in order (translation keys
/// and styling left out).
pub open spec fn component_raw(c: ChatComponent) -> Seq<char>
    decreases c, 0nat,
{
    c.text@ + components_raw(c.extra@)
}

pub open spec fn components_raw(cs: Seq<ChatComponent>) -> Seq<char>
    decreases cs, 1nat,
{
    if cs.len() == 0 {
        seq![]
    } else {
        components_raw(cs.drop_last()) + component_raw(cs.last())
    }
}

pub open spec fn raw_motd_spec(d: Description) -> Seq<char> {
    match d {
        Description::Plain(s) => s@,
        Description::Component(c) => component_raw(c),
    }
}

pub fn component_to_raw(comp: &ChatComponent) -> (res: String)
    ensures
        res@ == component_raw(*comp),
    decreases comp,
{
    let mut out = chars_of(comp.text.as_str());
    let mut i: usize = 0;
    proof {
        assert(comp.extra@.take(0) =~= Seq::<ChatComponent>::empty());
    }
    while i < comp.extra.len()
        invariant
            i <= comp.extra@.len(),
            out@ == comp.text@ + components_raw(comp.extra@.take(i as int)),
        decreases comp.extra@.len() - i,
    {
        proof {
            assert(decreases_to!(*comp => comp.extra@[i as int]));
        }
        let child = component_to_raw(&comp.extra[i]);
        let cc = chars_of(child.as_str());
        push_chars(&mut out, &cc);
        proof {
            assert(comp.extra@.take(i + 1).drop_last() =~= comp.extra@.take(i as int));
        }
        i += 1;
    }
    proof {
        assert(comp.extra@.take(i as int) =~= comp.extra@);
    }
    string_of(&out)
}

/// The raw text of components one after another is the raw text of each in
/// turn: the text of a list joined to another is the two texts joined.
pub proof fn lemma_components_raw_concat(a: Seq<ChatComponent>, b: Seq<ChatComponent>)
    ensures
        components_raw(a + b) == components_raw(a) + components_raw(b),
    decreases b.len(),
{
    if b.len() == 0 {
        assert(a + b =~= a);
        assert(components_raw(a) + Seq::<char>::empty() =~= components_raw(a));
    } else {
        lemma_components_raw_concat(a, b.drop_last());
        assert((a + b).drop_last() =~= a + b.drop_last());
        assert((a + b).last() == b.last());
        assert(components_raw(a) + components_raw(b.drop_last()) + component_raw(b.last())
            =~= components_raw(a) + (components_raw(b.drop_last()) + component_raw(b.last())));
    }
}

/// The raw text of a component is its own text, then the raw text of each
/// child in order: of one child alone, that child's raw text; of a child
/// before others, that child's raw text before theirs.
pub proof fn lemma_component_raw_order(c: ChatComponent, first: ChatComponent, rest: Seq<ChatComponent>)
    ensures
        components_raw(seq![first]) == component_raw(first),
        components_raw(seq![first] + rest) == component_raw(first) + components_raw(rest),
        c.extra@ == seq![first] + rest ==> component_raw(c) == c.text@ + component_raw(first)
            + components_raw(rest),
{
    let one: Seq<ChatComponent> = seq![first];
    assert(one.drop_last() =~= Seq::<ChatComponent>::empty());
    assert(components_raw(one.drop_last()) == Seq::<char>::empty());
    assert(Seq::<char>::empty() + component_raw(first) =~= component_raw(first));
    lemma_components_raw_concat(one, rest);
    if c.extra@ == seq![first] + rest {
        assert(c.text@ + (component_raw(first) + components_raw(rest)) =~= c.text@ + component_raw(
            first,
        ) + components_raw(rest));
    }
}

pub fn raw_motd(desc: &Description) -> (res: String)
    ensures
        res@ == raw_motd_spec(*desc),
{
    match desc {
        Description::Plain(s) => s.clone(),
        Description::Component(c) => component_to_raw(c),
    }
}

/// `s` with every `§` and the character after it removed.
pub open spec fn clean_spec(s: Seq<char>) -> Seq<char>
    decreases s.len(),
{
    if s.len() == 0 {
        seq![]
    } else if s[0] == '\u{a7}' {
        if s.len() >= 2 {
            clean_spec(s.skip(2))
        } else {
            seq![]
        }
    } else {
        seq![s[0]] + clean_spec(s.skip(1))
    }
}

pub fn clean_motd(input: &str) -> (res: String)
    ensures
        res@ == clean_spec(input@),
{
    let chars = chars_of(input);
    let mut out: Vec<char> = Vec::new();
    let mut i: usize = 0;
    proof {
        assert(chars@.skip(0) =~= chars@);
    }
    while i < chars.len()
        invariant
            i <= chars@.len(),
            chars@ == input@,
            out@ + clean_spec(chars@.skip(i as int)) == clean_spec(input@),
        decreases chars@.len() - i,
    {
        let ghost rest = chars@.skip(i as int);
        let ch = chars[i];
        assert(rest[0] == ch);
        if ch == '\u{a7}' {
            if i + 1 < chars.len() {
                assert(rest.skip(2) =~= chars@.skip(i + 2));
                i += 2;
            } else {
                assert(chars@.skip(i + 1) =~= Seq::<char>::empty());
                i += 1;
            }
        } else {
            let ghost before = out@;
            out.push(ch);
            assert(rest.skip(1) =~= chars@.skip(i + 1));
            assert(out@ + clean_spec(chars@.skip(i + 1)) =~= before + (seq![ch] + clean_spec(
                rest.skip(1),
            )));
            i += 1;
        }
    }
    proof {
        assert(chars@.skip(i as int) =~= Seq::<char>::empty());
        assert(out@ + Seq::<char>::empty() =~= out@);
    }
    string_of(&out)
}

pub fn clean_description(desc: &Description) -> (res: String)
    ensures
        res@ == clean_spec(raw_motd_spec(*desc)),
{
    let raw = raw_motd(desc);
    clean_motd(raw.as_str())
}

/// Cleaning reads from the left: a `§` and the character after it are
/// dropped together, a `§` at the very end is dropped, and any other
/// character is kept in its place.
pub proof fn lemma_clean_steps(x: char, c: char, t: Seq<char>)
    ensures
        clean_spec(seq!['\u{a7}', c] + t) == clean_spec(t),
        clean_spec(seq!['\u{a7}']) == Seq::<char>::empty(),
        x != '\u{a7}' ==> clean_spec(seq![x] + t) == seq![x] + clean_spec(t),
{
    let s = seq!['\u{a7}', c] + t;
    assert(s[0] == '\u{a7}' && s.len() >= 2);
    assert(s.skip(2) =~= t);
    let u = seq![x] + t;
    assert(u[0] == x);
    assert(u.skip(1) =~= t);
}

/// Cleaned text carries no formatting code.
pub proof fn lemma_clean_has_no_codes(s: Seq<char>)
    ensures
        !clean_spec(s).contains('\u{a7}'),
    decreases s.len(),
{
    if s.len() > 0 {
        if s[0] == '\u{a7}' {
            if s.len() >= 2 {
                lemma_clean_has_no_codes(s.skip(2));
            }
        } else {
            lemma_clean_has_no_codes(s.skip(1));
            let r = clean_spec(s.skip(1));
            assert forall|k: int| 0 <= k < (seq![s[0]] + r).len() implies (seq![s[0]] + r)[k]
                != '\u{a7}' by {
                if k > 0 {
                    assert((seq![s[0]] + r)[k] == r[k - 1]);
                    assert(!r.contains('\u{a7}'));
                }
            }
        }
    }
}

/// Text with no `§` is left as it is by cleaning.
pub proof fn lemma_clean_plain(s: Seq<char>)
    requires
        !s.contains('\u{a7}'),
    ensures
        clean_spec(s) == s,
    decreases s.len(),
{
    if s.len() > 0 {
        assert(s[0] != '\u{a7}') by {
            assert(s.contains(s[0]) ==> s[0] != '\u{a7}');
        }
        assert(!s.skip(1).contains('\u{a7}')) by {
            if s.skip(1).contains('\u{a7}') {
                let k = choose|k: int| 0 <= k < s.skip(1).len() && s.skip(1)[k] == '\u{a7}';
                assert(s[k + 1] == '\u{a7}');
            }
        }
        lemma_clean_plain(s.skip(1));
        assert(seq![s[0]] + s.skip(1) =~= s);
    }
}

/// Cleaning twice is cleaning once.
pub proof fn lemma_clean_idempotent(s: Seq<char>)
    ensures
        clean_spec(clean_spec(s)) == clean_spec(s),
{
    lemma_clean_has_no_codes(s);
    lemma_clean_plain(clean_spec(s));
}


// ── HTML rendering ───────────────────────────────────

/// Formatting in force while legacy `§` text is rendered as HTML: the color
/// code last selected, and the four decorations.
#[derive(Clone, Copy)]
pub struct LegacyHtmlState {
    pub color: Option<char>,
    pub bold: bool,
    pub strike: bool,
    pub underline: bool,
    pub italic: bool,
}

impl LegacyHtmlState {
    pub open spec fn plain_spec() -> LegacyHtmlState {
        LegacyHtmlState { color: None, bold: false, strike: false, underline: false, italic: false }
    }
}

/// Whether `c` is one of the sixteen color codes `0`-`9`, `a`-`f`.
pub open spec fn is_color_code(c: char) -> bool {
    ('0' <= c && c <= '9') || ('a' <= c && c <= 'f')
}

/// The CSS color of a legacy color code.
pub open spec fn code_hex(c: char) -> Seq<char> {
    if c == '0' {
        "#000000"@
    } else if c == '1' {
        "#0000AA"@
    } else if c == '2' {
        "#00AA00"@
    } else if c == '3' {
        "#00AAAA"@
    } else if c == '4' {
        "#AA0000"@
    } else if c == '5' {
        "#AA00AA"@
    } else if c == '6' {
        "#FFAA00"@
    } else if c == '7' {
        "#AAAAAA"@
    } else if c == '8' {
        "#555555"@
    } else if c == '9' {
        "#5555FF"@
    } else if c == 'a' {
        "#55FF55"@
    } else if c == 'b' {
        "#55FFFF"@
    } else if c == 'c' {
        "#FF5555"@
    } else if c == 'd' {
        "#FF55FF"@
    } else if c == 'e' {
        "#FFFF55"@
    } else {
        "#FFFFFF"@
    }
}

/// The state after the code `c`: a color code sets the color (keeping the
/// decorations), `l` `m` `n` `o` turn on bold, strikethrough, underline and
/// italic, `r` clears everything, and any other code changes nothing.
pub open spec fn apply_code(st: LegacyHtmlState, c: char) -> LegacyHtmlState {
    if is_color_code(c) {
        LegacyHtmlState { color: Some(c), ..st }
    } else if c == 'l' {
        LegacyHtmlState { bold: true, ..st }
    } else if c == 'm' {
        LegacyHtmlState { strike: true, ..st }
    } else if c == 'n' {
        LegacyHtmlState { underline: true, ..st }
    } else if c == 'o' {
        LegacyHtmlState { italic: true, ..st }
    } else if c == 'r' {
        LegacyHtmlState::plain_spec()
    } else {
        st
    }
}

/// What each code does to the HTML state, for every state: `r` resets it
/// to plain whatever it was; `l`, `m`, `n`, `o` turn on bold,
/// strikethrough, underline and italic and keep the rest; a color code
/// selects that color and keeps the decorations; any other character leaves
/// the state as it is.
pub proof fn lemma_html_codes(st: LegacyHtmlState, c: char)
    ensures
        apply_code(st, 'r') == (LegacyHtmlState {
            color: None,
            bold: false,
            strike: false,
            underline: false,
            italic: false,
        }),
        apply_code(st, 'l') == (LegacyHtmlState { bold: true, ..st }),
        apply_code(st, 'm') == (LegacyHtmlState { strike: true, ..st }),
        apply_code(st, 'n') == (LegacyHtmlState { underline: true, ..st }),
        apply_code(st, 'o') == (LegacyHtmlState { italic: true, ..st }),
        ('0' <= c <= '9' || 'a' <= c <= 'f') ==> apply_code(st, c) == (LegacyHtmlState {
            color: Some(c),
            ..st
        }),
        !('0' <= c <= '9' || 'a' <= c <= 'f') && c != 'l' && c != 'm' && c != 'n' && c != 'o' && c
            != 'r' ==> apply_code(st, c) == st,
{
}

/// After `§r` the HTML opens a span with no style at all, whatever the
/// state before it.
pub proof fn lemma_html_reset_span(st: LegacyHtmlState, rest: Seq<char>)
    ensures
        html_body(seq!['\u{a7}', 'r'] + rest, st) == "</span><span style=\""@ + "\">"@ + html_body(
            rest,
            LegacyHtmlState { color: None, bold: false, strike: false, underline: false, italic: false },
        ),
{
    let s = seq!['\u{a7}', 'r'] + rest;
    assert(s[0] == '\u{a7}' && s[1] == 'r');
    assert(s.skip(2) =~= rest);
    let plain = LegacyHtmlState { color: None, bold: false, strike: false, underline: false, italic: false };
    assert(state_css(plain) =~= Seq::<char>::empty());
    assert("</span><span style=\""@ + Seq::<char>::empty() =~= "</span><span style=\""@);
}

/// The HTML colors of the codes that the terminal shows in RGB are those
/// same RGB colors, written `#RRGGBB` in upper-case hex.
pub proof fn lemma_html_colors_match_terminal(c: char)
    requires
        c == '6' || c == '7' || c == '8' || c == '9' || c == 'a' || c == 'b' || c == 'c' || c == 'd'
            || c == 'e',
    ensures
        crate::style::motd::legacy_color(c) matches Some(crate::style::Hue::Rgb(r, g, b))
            && code_hex(c) == "#"@ + crate::text::hex2_upper(r) + crate::text::hex2_upper(g)
            + crate::text::hex2_upper(b),
{
    reveal_strlit("#");
    reveal_strlit("#FFAA00");
    reveal_strlit("#AAAAAA");
    reveal_strlit("#555555");
    reveal_strlit("#5555FF");
    reveal_strlit("#55FF55");
    reveal_strlit("#55FFFF");
    reveal_strlit("#FF5555");
    reveal_strlit("#FF55FF");
    reveal_strlit("#FFFF55");
    assert(crate::text::hex2_upper(255) =~= seq!['F', 'F']);
    assert(crate::text::hex2_upper(170) =~= seq!['A', 'A']);
    assert(crate::text::hex2_upper(85) =~= seq!['5', '5']);
    assert(crate::text::hex2_upper(0) =~= seq!['0', '0']);
    if let Some(crate::style::Hue::Rgb(r, g, b)) = crate::style::motd::legacy_color(c) {
        assert(code_hex(c) =~= "#"@ + crate::text::hex2_upper(r) + crate::text::hex2_upper(g)
            + crate::text::hex2_upper(b));
    }
}

/// `text` when `on`, else nothing.
pub open spec fn flag_css(on: bool, text: Seq<char>) -> Seq<char> {
    if on {
        text
    } else {
        Seq::<char>::empty()
    }
}

/// The CSS color declaration of a legacy color code, if one is selected.
pub open spec fn code_color_css(color: Option<char>) -> Seq<char> {
    match color {
        Some(c) => "color: "@ + code_hex(c) + ";"@,
        None => Seq::<char>::empty(),
    }
}

/// The CSS declarations of a state: color, bold, strikethrough, underline,
/// italic, in that order.
pub open spec fn state_css(st: LegacyHtmlState) -> Seq<char> {
    code_color_css(st.color) + flag_css(st.bold, "font-weight: bold;"@) + flag_css(
        st.strike,
        "text-decoration: line-through;"@,
    ) + flag_css(st.underline, "text-decoration: underline;"@) + flag_css(
        st.italic,
        "font-style: italic;"@,
    )
}

/// One character as HTML text: `<`, `>` and `&` as entities, a newline as
/// `<br>`, anything else as itself.
pub open spec fn escape_char(c: char) -> Seq<char> {
    if c == '<' {
        "&lt;"@
    } else if c == '>' {
        "&gt;"@
    } else if c == '&' {
        "&amp;"@
    } else if c == '\n' {
        "<br>"@
    } else {
        seq![c]
    }
}

/// Every character of `s` escaped.
pub open spec fn escape_text(s: Seq<char>) -> Seq<char>
    decreases s.len(),
{
    if s.len() == 0 {
        Seq::<char>::empty()
    } else {
        escape_text(s.drop_last()) + escape_char(s.last())
    }
}

/// The HTML of legacy text in state `st`: each `§` and the code after it
/// close the open span and open one styled by the new state; a `§` at the
/// very end gives nothing; other characters are escaped.
pub open spec fn html_body(s: Seq<char>, st: LegacyHtmlState) -> Seq<char>
    decreases s.len(),
{
    if s.len() == 0 {
        Seq::<char>::empty()
    } else if s[0] == '\u{a7}' {
        if s.len() >= 2 {
            let next = apply_code(st, s[1]);
            "</span><span style=\""@ + state_css(next) + "\">"@ + html_body(s.skip(2), next)
        } else {
            Seq::<char>::empty()
        }
    } else {
        escape_char(s[0]) + html_body(s.skip(1), st)
    }
}

/// Legacy `§` text as HTML, inside one outer span.
pub open spec fn motd_html(s: Seq<char>) -> Seq<char> {
    "<span>"@ + html_body(s, LegacyHtmlState::plain_spec()) + "</span>"@
}

proof fn lemma_escape_cons(c: char, r: Seq<char>)
    ensures
        escape_text(seq![c] + r) == escape_char(c) + escape_text(r),
    decreases r.len(),
{
    if r.len() == 0 {
        assert(seq![c] + r =~= seq![c]);
        assert(seq![c].drop_last() =~= Seq::<char>::empty());
        assert(escape_text(Seq::<char>::empty()) == Seq::<char>::empty());
        assert(escape_text(seq![c]) == escape_text(Seq::<char>::empty()) + escape_char(c));
        assert(escape_char(c) + Seq::<char>::empty() =~= escape_char(c));
        assert(Seq::<char>::empty() + escape_char(c) =~= escape_char(c));
    } else {
        lemma_escape_cons(c, r.drop_last());
        assert((seq![c] + r).drop_last() =~= seq![c] + r.drop_last());
        assert((seq![c] + r).last() == r.last());
        assert(escape_char(c) + escape_text(r.drop_last()) + escape_char(r.last()) =~= escape_char(c)
            + escape_text(r));
    }
}

proof fn lemma_body_without_codes(s: Seq<char>, st: LegacyHtmlState)
    requires
        !s.contains('\u{a7}'),
    ensures
        html_body(s, st) == escape_text(s),
    decreases s.len(),
{
    if s.len() > 0 {
        assert(s.contains(s[0]));
        let r = s.skip(1);
        assert(!r.contains('\u{a7}')) by {
            if r.contains('\u{a7}') {
                let k = choose|k: int| 0 <= k < r.len() && r[k] == '\u{a7}';
                assert(s[k + 1] == '\u{a7}');
            }
        }
        lemma_body_without_codes(r, st);
        assert(s =~= seq![s[0]] + r);
        lemma_escape_cons(s[0], r);
    }
}

/// Text without formatting codes renders as one span holding the text,
/// escaped.
pub proof fn lemma_plain_motd_html(s: Seq<char>)
    requires
        !s.contains('\u{a7}'),
    ensures
        motd_html(s) == "<span>"@ + escape_text(s) + "</span>"@,
{
    lemma_body_without_codes(s, LegacyHtmlState::plain_spec());
}

/// Escaping leaves text without `<`, `>`, `&` and line breaks as it is.
pub proof fn lemma_escape_plain(s: Seq<char>)
    requires
        forall|k: int|
            0 <= k < s.len() ==> #[trigger] s[k] != '<' && s[k] != '>' && s[k] != '&' && s[k]
                != '\n',
    ensures
        escape_text(s) == s,
    decreases s.len(),
{
    if s.len() > 0 {
        lemma_escape_plain(s.drop_last());
        assert(s.last() == s[s.len() - 1]);
        assert(s.drop_last() + seq![s.last()] =~= s);
    }
}

/// `s` with every `c` replaced by `r`.
pub open spec fn replace_char(s: Seq<char>, c: char, r: Seq<char>) -> Seq<char>
    decreases s.len(),
{
    if s.len() == 0 {
        Seq::<char>::empty()
    } else {
        replace_char(s.drop_last(), c, r) + if s.last() == c {
            r
        } else {
            seq![s.last()]
        }
    }
}

/// `&`, `<`, `>` and line breaks replaced, one after the other, by `&amp;`,
/// `&lt;`, `&gt;` and `<br>`.
pub open spec fn replace_chain(s: Seq<char>) -> Seq<char> {
    replace_char(
        replace_char(replace_char(replace_char(s, '&', "&amp;"@), '<', "&lt;"@), '>', "&gt;"@),
        '\n',
        "<br>"@,
    )
}

proof fn lemma_replace_concat(a: Seq<char>, b: Seq<char>, c: char, r: Seq<char>)
    ensures
        replace_char(a + b, c, r) == replace_char(a, c, r) + replace_char(b, c, r),
    decreases b.len(),
{
    if b.len() == 0 {
        assert(a + b =~= a);
        assert(replace_char(a, c, r) + Seq::<char>::empty() =~= replace_char(a, c, r));
    } else {
        lemma_replace_concat(a, b.drop_last(), c, r);
        assert((a + b).drop_last() =~= a + b.drop_last());
        assert((a + b).last() == b.last());
        let t: Seq<char> = if b.last() == c {
            r
        } else {
            seq![b.last()]
        };
        assert(replace_char(a, c, r) + replace_char(b.drop_last(), c, r) + t =~= replace_char(a, c, r)
            + (replace_char(b.drop_last(), c, r) + t));
    }
}

proof fn lemma_replace_single(x: char, c: char, r: Seq<char>)
    ensures
        replace_char(seq![x], c, r) == if x == c {
            r
        } else {
            seq![x]
        },
{
    let one: Seq<char> = seq![x];
    assert(one.drop_last() =~= Seq::<char>::empty());
    assert(one.len() == 1 && one.last() == x);
    assert(replace_char(one.drop_last(), c, r) == Seq::<char>::empty());
    assert(Seq::<char>::empty() + r =~= r);
    assert(Seq::<char>::empty() + one =~= one);
}

proof fn lemma_replace_absent(s: Seq<char>, c: char, r: Seq<char>)
    requires
        forall|k: int| 0 <= k < s.len() ==> #[trigger] s[k] != c,
    ensures
        replace_char(s, c, r) == s,
    decreases s.len(),
{
    if s.len() > 0 {
        assert(s.last() == s[s.len() - 1]);
        lemma_replace_absent(s.drop_last(), c, r);
        assert(s.drop_last() + seq![s.last()] =~= s);
    }
}

proof fn lemma_replace_chain_concat(a: Seq<char>, b: Seq<char>)
    ensures
        replace_chain(a + b) == replace_chain(a) + replace_chain(b),
{
    let a1 = replace_char(a, '&', "&amp;"@);
    let b1 = replace_char(b, '&', "&amp;"@);
    lemma_replace_concat(a, b, '&', "&amp;"@);
    let a2 = replace_char(a1, '<', "&lt;"@);
    let b2 = replace_char(b1, '<', "&lt;"@);
    lemma_replace_concat(a1, b1, '<', "&lt;"@);
    let a3 = replace_char(a2, '>', "&gt;"@);
    let b3 = replace_char(b2, '>', "&gt;"@);
    lemma_replace_concat(a2, b2, '>', "&gt;"@);
    lemma_replace_concat(a3, b3, '\n', "<br>"@);
}

proof fn lemma_replace_chain_single(x: char)
    ensures
        replace_chain(seq![x]) == escape_char(x),
{
    reveal_strlit("&amp;");
    reveal_strlit("&lt;");
    reveal_strlit("&gt;");
    reveal_strlit("<br>");
    lemma_replace_single(x, '&', "&amp;"@);
    let s1 = replace_char(seq![x], '&', "&amp;"@);
    if x == '&' {
        lemma_replace_absent(s1, '<', "&lt;"@);
        lemma_replace_absent(s1, '>', "&gt;"@);
        lemma_replace_absent(s1, '\n', "<br>"@);
    } else {
        lemma_replace_single(x, '<', "&lt;"@);
        let s2 = replace_char(s1, '<', "&lt;"@);
        if x == '<' {
            lemma_replace_absent(s2, '>', "&gt;"@);
            lemma_replace_absent(s2, '\n', "<br>"@);
        } else {
            lemma_replace_single(x, '>', "&gt;"@);
            let s3 = replace_char(s2, '>', "&gt;"@);
            if x == '>' {
                lemma_replace_absent(s3, '\n', "<br>"@);
            } else {
                lemma_replace_single(x, '\n', "<br>"@);
            }
        }
    }
}

/// Escaping is the chain of replacements `&` to `&amp;`, `<` to `&lt;`,
/// `>` to `&gt;` and line breaks to `<br>`, in that order.
pub proof fn lemma_escape_is_replace_chain(s: Seq<char>)
    ensures
        escape_text(s) == replace_chain(s),
    decreases s.len(),
{
    if s.len() > 0 {
        lemma_escape_is_replace_chain(s.drop_last());
        lemma_replace_chain_concat(s.drop_last(), seq![s.last()]);
        lemma_replace_chain_single(s.last());
        assert(s.drop_last() + seq![s.last()] =~= s);
    }
}

/// Text without formatting codes renders as one span holding the text with
/// `&`, `<`, `>` and line breaks replaced, in that order, by `&amp;`, `&lt;`,
/// `&gt;` and `<br>`.
pub proof fn lemma_plain_motd_replace_chain(s: Seq<char>)
    requires
        !s.contains('\u{a7}'),
    ensures
        motd_html(s) == "<span>"@ + replace_chain(s) + "</span>"@,
{
    lemma_plain_motd_html(s);
    lemma_escape_is_replace_chain(s);
}

fn code_hex_of(c: char) -> (res: &'static str)
    requires
        is_color_code(c),
    ensures
        res@ == code_hex(c),
{
    if c == '0' {
        "#000000"
    } else if c == '1' {
        "#0000AA"
    } else if c == '2' {
        "#00AA00"
    } else if c == '3' {
        "#00AAAA"
    } else if c == '4' {
        "#AA0000"
    } else if c == '5' {
        "#AA00AA"
    } else if c == '6' {
        "#FFAA00"
    } else if c == '7' {
        "#AAAAAA"
    } else if c == '8' {
        "#555555"
    } else if c == '9' {
        "#5555FF"
    } else if c == 'a' {
        "#55FF55"
    } else if c == 'b' {
        "#55FFFF"
    } else if c == 'c' {
        "#FF5555"
    } else if c == 'd' {
        "#FF55FF"
    } else if c == 'e' {
        "#FFFF55"
    } else {
        "#FFFFFF"
    }
}

fn apply_code_to(st: LegacyHtmlState, c: char) -> (res: LegacyHtmlState)
    ensures
        res == apply_code(st, c),
{
    if ('0' <= c && c <= '9') || ('a' <= c && c <= 'f') {
        LegacyHtmlState { color: Some(c), ..st }
    } else if c == 'l' {
        LegacyHtmlState { bold: true, ..st }
    } else if c == 'm' {
        LegacyHtmlState { strike: true, ..st }
    } else if c == 'n' {
        LegacyHtmlState { underline: true, ..st }
    } else if c == 'o' {
        LegacyHtmlState { italic: true, ..st }
    } else if c == 'r' {
        LegacyHtmlState { color: None, bold: false, strike: false, underline: false, italic: false }
    } else {
        st
    }
}

fn push_flag(out: &mut Vec<char>, on: bool, text: &str)
    ensures
        final(out)@ == old(out)@ + flag_css(on, text@),
{
    if on {
        push_str(out, text);
    } else {
        assert(out@ =~= out@ + Seq::<char>::empty());
    }
}

fn push_state_css(out: &mut Vec<char>, st: LegacyHtmlState)
    requires
        st.color matches Some(c) ==> is_color_code(c),
    ensures
        final(out)@ == old(out)@ + state_css(st),
{
    let ghost start = out@;
    match st.color {
        Some(c) => {
            push_str(out, "color: ");
            push_str(out, code_hex_of(c));
            push_str(out, ";");
            assert(out@ =~= start + code_color_css(st.color));
        },
        None => {
            assert(out@ =~= start + code_color_css(st.color));
        },
    }
    let ghost a = out@;
    push_flag(out, st.bold, "font-weight: bold;");
    let ghost b = out@;
    push_flag(out, st.strike, "text-decoration: line-through;");
    let ghost c = out@;
    push_flag(out, st.underline, "text-decoration: underline;");
    let ghost d = out@;
    push_flag(out, st.italic, "font-style: italic;");
    proof {
        assert(out@ =~= start + state_css(st));
    }
}

fn push_escaped(out: &mut Vec<char>, c: char)
    ensures
        final(out)@ == old(out)@ + escape_char(c),
{
    if c == '<' {
        push_str(out, "&lt;");
    } else if c == '>' {
        push_str(out, "&gt;");
    } else if c == '&' {
        push_str(out, "&amp;");
    } else if c == '\n' {
        push_str(out, "<br>");
    } else {
        let ghost before = out@;
        out.push(c);
        assert(out@ =~= before + seq![c]);
    }
}

/// Legacy `§` text rendered as HTML.
pub fn motd_to_html(input: &str) -> (res: String)
    ensures
        res@ == motd_html(input@),
{
    let chars = chars_of(input);
    let mut out: Vec<char> = Vec::new();
    push_str(&mut out, "<span>");
    let mut st = LegacyHtmlState {
        color: None,
        bold: false,
        strike: false,
        underline: false,
        italic: false,
    };
    let mut i: usize = 0;
    proof {
        assert(chars@.skip(0) =~= chars@);
    }
    while i < chars.len()
        invariant
            i <= chars@.len(),
            chars@ == input@,
            st.color matches Some(c) ==> is_color_code(c),
            out@ + html_body(chars@.skip(i as int), st) == "<span>"@ + html_body(
                input@,
                LegacyHtmlState::plain_spec(),
            ),
        decreases chars@.len() - i,
    {
        let ghost rest = chars@.skip(i as int);
        let ghost before = out@;
        let ch = chars[i];
        assert(rest[0] == ch);
        if ch == '\u{a7}' {
            if i + 1 < chars.len() {
                let code = chars[i + 1];
                assert(rest[1] == code);
                let ghost old_st = st;
                st = apply_code_to(st, code);
                push_str(&mut out, "</span><span style=\"");
                push_state_css(&mut out, st);
                push_str(&mut out, "\">");
                assert(rest.skip(2) =~= chars@.skip(i + 2));
                assert(out@ + html_body(chars@.skip(i + 2), st) =~= before + html_body(
                    rest,
                    old_st,
                ));
                i += 2;
            } else {
                assert(chars@.skip(i + 1) =~= Seq::<char>::empty());
                i += 1;
            }
        } else {
            push_escaped(&mut out, ch);
            assert(rest.skip(1) =~= chars@.skip(i + 1));
            assert(out@ + html_body(chars@.skip(i + 1), st) =~= before + (escape_char(ch)
                + html_body(rest.skip(1), st)));
            i += 1;
        }
    }
    proof {
        assert(chars@.skip(i as int) =~= Seq::<char>::empty());
    }
    push_str(&mut out, "</span>");
    string_of(&out)
}


/// The CSS color of a Minecraft chat color name.
pub open spec fn named_hex(name: Seq<char>) -> Option<Seq<char>> {
    if name == "black"@ {
        Some("#000000"@)
    } else if name == "dark_blue"@ {
        Some("#0000AA"@)
    } else if name == "dark_green"@ {
        Some("#00AA00"@)
    } else if name == "dark_aqua"@ {
        Some("#00AAAA"@)
    } else if name == "dark_red"@ {
        Some("#AA0000"@)
    } else if name == "dark_purple"@ {
        Some("#AA00AA"@)
    } else if name == "gold"@ {
        Some("#FFAA00"@)
    } else if name == "gray"@ {
        Some("#AAAAAA"@)
    } else if name == "dark_gray"@ {
        Some("#555555"@)
    } else if name == "blue"@ {
        Some("#5555FF"@)
    } else if name == "green"@ {
        Some("#55FF55"@)
    } else if name == "aqua"@ {
        Some("#55FFFF"@)
    } else if name == "red"@ {
        Some("#FF5555"@)
    } else if name == "light_purple"@ {
        Some("#FF55FF"@)
    } else if name == "yellow"@ {
        Some("#FFFF55"@)
    } else if name == "white"@ {
        Some("#FFFFFF"@)
    } else {
        None
    }
}

/// The CSS color a component's `color` value gives: a value starting with `#`
/// as it is, a known name as its hex value, anything else as it is.
pub open spec fn css_color(color: Seq<char>) -> Seq<char> {
    if color.len() > 0 && color[0] == '#' {
        color
    } else {
        match named_hex(color) {
            Some(h) => h,
            None => color,
        }
    }
}

/// The CSS color declaration of a component, if it has a color.
pub open spec fn component_color_css(color: Option<String>) -> Seq<char> {
    match color {
        Some(col) => "color: "@ + css_color(col@) + ";"@,
        None => Seq::<char>::empty(),
    }
}

/// The CSS declarations of a component: color, bold, italic, underline,
/// strikethrough, in that order; a decoration only when set to `true`.
pub open spec fn component_css(c: ChatComponent) -> Seq<char> {
    component_color_css(c.color) + flag_css(c.bold == Some(true), "font-weight: bold;"@)
        + flag_css(c.italic == Some(true), "font-style: italic;"@) + flag_css(
        c.underlined == Some(true),
        "text-decoration: underline;"@,
    ) + flag_css(c.strikethrough == Some(true), "text-decoration: line-through;"@)
}

/// A component as HTML: a span styled by its own fields holding its escaped
/// text and then its children.
pub open spec fn component_html(c: ChatComponent) -> Seq<char>
    decreases c, 0nat,
{
    "<span style=\""@ + component_css(c) + "\">"@ + escape_text(c.text@) + components_html(c.extra@)
        + "</span>"@
}

pub open spec fn components_html(cs: Seq<ChatComponent>) -> Seq<char>
    decreases cs, 1nat,
{
    if cs.len() == 0 {
        Seq::<char>::empty()
    } else {
        components_html(cs.drop_last()) + component_html(cs.last())
    }
}

/// The HTML of components one after another is the HTML of each in turn.
pub proof fn lemma_components_html_concat(a: Seq<ChatComponent>, b: Seq<ChatComponent>)
    ensures
        components_html(a + b) == components_html(a) + components_html(b),
    decreases b.len(),
{
    if b.len() == 0 {
        assert(a + b =~= a);
        assert(components_html(a) + Seq::<char>::empty() =~= components_html(a));
    } else {
        lemma_components_html_concat(a, b.drop_last());
        assert((a + b).drop_last() =~= a + b.drop_last());
        assert((a + b).last() == b.last());
        assert(components_html(a) + components_html(b.drop_last()) + component_html(b.last())
            =~= components_html(a) + (components_html(b.drop_last()) + component_html(b.last())));
    }
}

/// The HTML of a single component among children is that component's HTML.
pub proof fn lemma_components_html_single(c: ChatComponent)
    ensures
        components_html(seq![c]) == component_html(c),
{
    let one: Seq<ChatComponent> = seq![c];
    assert(one.drop_last() =~= Seq::<ChatComponent>::empty());
    assert(components_html(one.drop_last()) == Seq::<char>::empty());
    assert(Seq::<char>::empty() + component_html(c) =~= component_html(c));
}

/// A description as HTML.
pub open spec fn description_html(d: Description) -> Seq<char> {
    match d {
        Description::Plain(s) => motd_html(s@),
        Description::Component(c) => component_html(c),
    }
}

fn named_hex_of(name: &Vec<char>) -> (res: Option<&'static str>)
    ensures
        match res {
            Some(h) => named_hex(name@) == Some(h@),
            None => named_hex(name@) is None,
        },
{
    if is_lit(name, "black") {
        Some("#000000")
    } else if is_lit(name, "dark_blue") {
        Some("#0000AA")
    } else if is_lit(name, "dark_green") {
        Some("#00AA00")
    } else if is_lit(name, "dark_aqua") {
        Some("#00AAAA")
    } else if is_lit(name, "dark_red") {
        Some("#AA0000")
    } else if is_lit(name, "dark_purple") {
        Some("#AA00AA")
    } else if is_lit(name, "gold") {
        Some("#FFAA00")
    } else if is_lit(name, "gray") {
        Some("#AAAAAA")
    } else if is_lit(name, "dark_gray") {
        Some("#555555")
    } else if is_lit(name, "blue") {
        Some("#5555FF")
    } else if is_lit(name, "green") {
        Some("#55FF55")
    } else if is_lit(name, "aqua") {
        Some("#55FFFF")
    } else if is_lit(name, "red") {
        Some("#FF5555")
    } else if is_lit(name, "light_purple") {
        Some("#FF55FF")
    } else if is_lit(name, "yellow") {
        Some("#FFFF55")
    } else if is_lit(name, "white") {
        Some("#FFFFFF")
    } else {
        None
    }
}

fn push_component_color(out: &mut Vec<char>, color: &Option<String>)
    ensures
        final(out)@ == old(out)@ + component_color_css(*color),
{
    let ghost start = out@;
    match color {
        Some(col) => {
            push_str(out, "color: ");
            let cs = chars_of(col.as_str());
            if cs.len() > 0 && cs[0] == '#' {
                push_chars(out, &cs);
            } else {
                match named_hex_of(&cs) {
                    Some(h) => push_str(out, h),
                    None => push_chars(out, &cs),
                }
            }
            push_str(out, ";");
            assert(out@ =~= start + component_color_css(*color));
        },
        None => {
            assert(out@ =~= start + component_color_css(*color));
        },
    }
}

fn is_set(flag: Option<bool>) -> (res: bool)
    ensures
        res == (flag == Some(true)),
{
    match flag {
        Some(b) => b,
        None => false,
    }
}

fn push_escaped_text(out: &mut Vec<char>, text: &str)
    ensures
        final(out)@ == old(out)@ + escape_text(text@),
{
    let chars = chars_of(text);
    let mut i: usize = 0;
    while i < chars.len()
        invariant
            i <= chars@.len(),
            chars@ == text@,
            out@ == old(out)@ + escape_text(chars@.take(i as int)),
        decreases chars@.len() - i,
    {
        let ghost before = out@;
        push_escaped(out, chars[i]);
        assert(chars@.take(i + 1).drop_last() =~= chars@.take(i as int));
        assert(out@ =~= old(out)@ + escape_text(chars@.take(i + 1)));
        i += 1;
    }
    assert(chars@.take(i as int) =~= chars@);
}

/// A chat component rendered as HTML.
pub fn component_to_html(comp: &ChatComponent) -> (res: String)
    ensures
        res@ == component_html(*comp),
    decreases comp,
{
    let mut out: Vec<char> = Vec::new();
    push_str(&mut out, "<span style=\"");
    let ghost s0 = out@;
    push_component_color(&mut out, &comp.color);
    push_flag(&mut out, is_set(comp.bold), "font-weight: bold;");
    push_flag(&mut out, is_set(comp.italic), "font-style: italic;");
    push_flag(&mut out, is_set(comp.underlined), "text-decoration: underline;");
    push_flag(&mut out, is_set(comp.strikethrough), "text-decoration: line-through;");
    assert(out@ =~= s0 + component_css(*comp));
    push_str(&mut out, "\">");
    push_escaped_text(&mut out, comp.text.as_str());
    let ghost head = out@;
    let mut i: usize = 0;
    proof {
        assert(comp.extra@.take(0) =~= Seq::<ChatComponent>::empty());
    }
    while i < comp.extra.len()
        invariant
            i <= comp.extra@.len(),
            out@ == head + components_html(comp.extra@.take(i as int)),
        decreases comp.extra@.len() - i,
    {
        proof {
            assert(decreases_to!(*comp => comp.extra@[i as int]));
        }
        let child = component_to_html(&comp.extra[i]);
        push_str(&mut out, child.as_str());
        proof {
            assert(comp.extra@.take(i + 1).drop_last() =~= comp.extra@.take(i as int));
            assert(out@ =~= head + components_html(comp.extra@.take(i + 1)));
        }
        i += 1;
    }
    proof {
        assert(comp.extra@.take(i as int) =~= comp.extra@);
    }
    push_str(&mut out, "</span>");
    assert(out@ =~= component_html(*comp));
    string_of(&out)
}

/// A description rendered as HTML.
pub fn description_to_html(desc: &Description) -> (res: String)
    ensures
        res@ == description_html(*desc),
{
    match desc {
        Description::Plain(s) => motd_to_html(s.as_str()),
        Description::Component(c) => component_to_html(c),
    }
}


// ── Responses ────────────────────────────────────────

/// How long a response stays valid after it was retrieved, in milliseconds.
pub const CACHE_MILLIS: u64 = 30000;

/// When a response retrieved at `retrieved_at` (Unix milliseconds) expires.
pub fn expires_at_of(retrieved_at: u64) -> (res: u64)
    requires
        retrieved_at + CACHE_MILLIS <= u64::MAX,
    ensures
        res == retrieved_at + CACHE_MILLIS,
{
    retrieved_at + CACHE_MILLIS
}

/// The SRV record to report: the resolved target, when SRV gave it.
pub fn srv_record_for(host: &str, port: u16, srv: bool) -> (res: Option<McSrvRecord>)
    ensures
        srv ==> (res matches Some(r) && r.host@ == host@ && r.port == port),
        !srv ==> res is None,
{
    if srv {
        let chars = chars_of(host);
        Some(McSrvRecord { host: string_of(&chars), port })
    } else {
        None
    }
}

/// The response for a server that could not be reached.
pub fn offline_response(
    host: String,
    port: u16,
    ip_address: Option<String>,
    retrieved_at: u64,
    expires_at: u64,
    srv_record: Option<McSrvRecord>,
) -> (res: McStatusResponse)
    ensures
        !res.online,
        res.host == host,
        res.port == port,
        res.ip_address == ip_address,
        !res.eula_blocked,
        res.retrieved_at == retrieved_at,
        res.expires_at == expires_at,
        res.version is None,
        res.players is None,
        res.motd is None,
        res.icon is None,
        res.mods@.len() == 0,
        res.software is None,
        res.plugins@.len() == 0,
        res.srv_record == srv_record,
{
    McStatusResponse {
        online: false,
        host,
        port,
        ip_address,
        eula_blocked: false,
        retrieved_at,
        expires_at,
        version: None,
        players: None,
        motd: None,
        icon: None,
        mods: Vec::new(),
        software: None,
        plugins: Vec::new(),
        srv_record,
    }
}

/// A player of the status sample as reported: its uuid, its name raw,
/// cleaned and as HTML.
pub open spec fn sample_entry(e: McPlayerSample, p: crate::types::PlayerSample) -> bool {
    &&& e.uuid@ == p.id@
    &&& e.name_raw@ == p.name@
    &&& e.name_clean@ == clean_spec(p.name@)
    &&& e.name_html@ == motd_html(p.name@)
}

/// The reported version of a status: the name raw, cleaned and as HTML, and
/// the protocol number.
pub open spec fn version_entry(v: McVersion, src: crate::types::Version) -> bool {
    &&& v.name_raw@ == src.name@
    &&& v.name_clean@ == clean_spec(src.name@)
    &&& v.name_html@ == motd_html(src.name@)
    &&& v.protocol == src.protocol
}

fn player_entries(sample: &Vec<crate::types::PlayerSample>) -> (res: Vec<McPlayerSample>)
    ensures
        res@.len() == sample@.len(),
        forall|k: int| 0 <= k < sample@.len() ==> sample_entry(#[trigger] res@[k], sample@[k]),
{
    let mut out: Vec<McPlayerSample> = Vec::new();
    let mut i: usize = 0;
    while i < sample.len()
        invariant
            i <= sample@.len(),
            out@.len() == i,
            forall|k: int| 0 <= k < i ==> sample_entry(#[trigger] out@[k], sample@[k]),
        decreases sample@.len() - i,
    {
        let p = &sample[i];
        let id = chars_of(p.id.as_str());
        let name = chars_of(p.name.as_str());
        let entry = McPlayerSample {
            uuid: string_of(&id),
            name_raw: string_of(&name),
            name_clean: clean_motd(p.name.as_str()),
            name_html: motd_to_html(p.name.as_str()),
        };
        out.push(entry);
        i += 1;
    }
    out
}

/// The response for a server that answered with `status`.
pub fn online_response(
    host: String,
    port: u16,
    ip_address: Option<String>,
    eula_blocked: bool,
    retrieved_at: u64,
    expires_at: u64,
    status: ServerStatus,
    srv_record: Option<McSrvRecord>,
) -> (res: McStatusResponse)
    ensures
        res.online,
        res.host == host,
        res.port == port,
        res.ip_address == ip_address,
        res.eula_blocked == eula_blocked,
        res.retrieved_at == retrieved_at,
        res.expires_at == expires_at,
        res.version matches Some(v) && version_entry(v, status.version),
        res.players matches Some(p) && {
            &&& p.online == status.players.online
            &&& p.max == status.players.max
            &&& p.list@.len() == status.players.sample@.len()
            &&& forall|k: int|
                0 <= k < p.list@.len() ==> sample_entry(
                    #[trigger] p.list@[k],
                    status.players.sample@[k],
                )
        },
        res.motd matches Some(m) && {
            &&& m.raw@ == raw_motd_spec(status.description)
            &&& m.clean@ == clean_spec(raw_motd_spec(status.description))
            &&& m.html@ == description_html(status.description)
        },
        res.icon == status.favicon,
        res.mods@.len() == 0,
        res.software is None,
        res.plugins@.len() == 0,
        res.srv_record == srv_record,
{
    let name = chars_of(status.version.name.as_str());
    let version = McVersion {
        name_raw: string_of(&name),
        name_clean: clean_motd(status.version.name.as_str()),
        name_html: motd_to_html(status.version.name.as_str()),
        protocol: status.version.protocol,
    };
    let players = McPlayers {
        online: status.players.online,
        max: status.players.max,
        list: player_entries(&status.players.sample),
    };
    let motd = McMotd {
        raw: raw_motd(&status.description),
        clean: clean_description(&status.description),
        html: description_to_html(&status.description),
    };
    McStatusResponse {
        online: true,
        host,
        port,
        ip_address,
        eula_blocked,
        retrieved_at,
        expires_at,
        version: Some(version),
        players: Some(players),
        motd: Some(motd),
        icon: status.favicon,
        mods: Vec::new(),
        software: None,
        plugins: Vec::new(),
        srv_record,
    }
}

// ── Rate limiting and caching ────────────────────────

/// Requests allowed per client address in one window.
pub const RATE_LIMIT: u32 = 5;

/// The length of a rate-limit window, in nanoseconds.
pub const RATE_WINDOW_NANOS: u128 = 1_000_000_000;

/// How long a cached response is served, in nanoseconds.
pub const CACHE_NANOS: u128 = 30_000_000_000;

/// What the rate limiter does with one request.
#[derive(Debug, Clone, Copy, PartialEq, Eq, Structural)]
pub struct RateDecision {
    /// Whether the request is served (else it is answered 429).
    pub allowed: bool,
    /// The window's request count afterwards.
    pub count: u32,
    /// Whether a new window starts now.
    pub new_window: bool,
}

/// The limiter's step: a window older than one second starts afresh; a full
/// window refuses the request and keeps its count; otherwise the request is
/// counted and allowed.
pub open spec fn rate_step(count: u32, window_age_nanos: u128) -> RateDecision {
    let new_window = window_age_nanos > RATE_WINDOW_NANOS;
    let c = if new_window {
        0
    } else {
        count
    };
    if c >= RATE_LIMIT {
        RateDecision { allowed: false, count: c, new_window }
    } else {
        RateDecision { allowed: true, count: (c + 1) as u32, new_window }
    }
}

/// Decide one request of a client whose window holds `count` requests and
/// began `window_age_nanos` ago.
pub fn rate_limit_step(count: u32, window_age_nanos: u128) -> (res: RateDecision)
    ensures
        res == rate_step(count, window_age_nanos),
{
    let new_window = window_age_nanos > RATE_WINDOW_NANOS;
    let c = if new_window {
        0
    } else {
        count
    };
    if c >= RATE_LIMIT {
        RateDecision { allowed: false, count: c, new_window }
    } else {
        RateDecision { allowed: true, count: c + 1, new_window }
    }
}

/// How many of the requests arriving at the given window ages are allowed,
/// starting from a window that holds `count` requests, when no window
/// restarts.
pub open spec fn allowed_in_window(count: u32, ages: Seq<u128>) -> nat
    decreases ages.len(),
{
    if ages.len() == 0 {
        0
    } else {
        let d = rate_step(count, ages[0]);
        (if d.allowed {
            1nat
        } else {
            0nat
        }) + allowed_in_window(d.count, ages.skip(1))
    }
}

/// Within one window no client gets more than five requests served.
pub proof fn lemma_rate_limit_bound(count: u32, ages: Seq<u128>)
    requires
        forall|k: int| 0 <= k < ages.len() ==> ages[k] <= RATE_WINDOW_NANOS,
    ensures
        count <= RATE_LIMIT ==> allowed_in_window(count, ages) <= RATE_LIMIT - count,
        count > RATE_LIMIT ==> allowed_in_window(count, ages) == 0,
    decreases ages.len(),
{
    if ages.len() > 0 {
        let d = rate_step(count, ages[0]);
        assert forall|k: int| 0 <= k < ages.skip(1).len() implies ages.skip(1)[k]
            <= RATE_WINDOW_NANOS by {
            assert(ages.skip(1)[k] == ages[k + 1]);
        }
        lemma_rate_limit_bound(d.count, ages.skip(1));
    }
}

/// The limiter over every count and window age: a window older than one
/// second always starts afresh and serves the request as the first of the
/// new window; within the second, a window that has served fewer than five
/// requests serves this one too and counts it, and a window with five or
/// more refuses it and keeps its count.
pub proof fn lemma_rate_step_cases(count: u32, window_age_nanos: u128)
    ensures
        window_age_nanos > 1_000_000_000 ==> rate_step(count, window_age_nanos) == (RateDecision {
            allowed: true,
            count: 1,
            new_window: true,
        }),
        window_age_nanos <= 1_000_000_000 && count < 5 ==> rate_step(count, window_age_nanos) == (
        RateDecision { allowed: true, count: (count + 1) as u32, new_window: false }),
        window_age_nanos <= 1_000_000_000 && count >= 5 ==> rate_step(count, window_age_nanos) == (
        RateDecision { allowed: false, count: count, new_window: false }),
{
}

/// Two requests in a row after a stale window: the first restarts the
/// window whatever had been counted, and the second, within the second,
/// is served as the window's second request.
pub proof fn lemma_rate_restart_then_count(count: u32, stale_age: u128, fresh_age: u128)
    requires
        stale_age > 1_000_000_000,
        fresh_age <= 1_000_000_000,
    ensures
        rate_step(rate_step(count, stale_age).count, fresh_age).count == 2,
        rate_step(rate_step(count, stale_age).count, fresh_age).allowed,
{
}

/// Seconds left of a cached response's validity: `Some` while it is younger
/// than thirty seconds, with thirty less its whole seconds of age.
pub open spec fn cache_remaining(age_nanos: u128) -> Option<u64> {
    if age_nanos < CACHE_NANOS {
        Some((30 - age_nanos / 1_000_000_000) as u64)
    } else {
        None
    }
}

/// Over every age: a cached response is served exactly while it is younger
/// than thirty seconds, with between one and thirty seconds left, one fewer
/// for each whole second of age; an older one is not served.
pub proof fn lemma_cache_window(age_nanos: u128)
    ensures
        age_nanos < 30_000_000_000 ==> (cache_remaining(age_nanos) matches Some(left) && 1 <= left
            <= 30 && left + age_nanos / 1_000_000_000 == 30),
        age_nanos >= 30_000_000_000 ==> cache_remaining(age_nanos) is None,
        age_nanos < 1_000_000_000 ==> cache_remaining(age_nanos) == Some(30u64),
{
}

/// Whether a cached response of the given age is served, and with how many
/// seconds of validity left.
pub fn cache_time_remaining(age_nanos: u128) -> (res: Option<u64>)
    ensures
        res == cache_remaining(age_nanos),
{
    if age_nanos < CACHE_NANOS {
        let secs = age_nanos / 1_000_000_000;
        Some(30 - secs as u64)
    } else {
        None
    }
}


// ── Logging ──────────────────────────────────────────

/// The look of an HTTP status code in the request log: green for success,
/// yellow for a client error, red otherwise.
pub open spec fn status_look(code: u16) -> LookSpec {
    if 200 <= code && code < 300 {
        look(Some(Hue::Green), seq![])
    } else if 400 <= code && code < 500 {
        look(Some(Hue::Yellow), seq![])
    } else {
        look(Some(Hue::Red), seq![])
    }
}

/// The first log line of a request: a cyan bullet, the client (dimmed), the
/// method in bold, the address in the accent color, the status code and the
/// time taken (dimmed), separated by spaces.
pub open spec fn request_line_pieces(
    address: Seq<char>,
    client: Seq<char>,
    code: u16,
    duration: Seq<char>,
) -> Seq<Piece> {
    seq![
        piece(BULLET@, look(Some(Hue::Cyan), seq![])),
        piece(seq![' '], plain_look()),
        piece(client, look(None, seq![Effect::Dimmed])),
        piece(seq![' '], plain_look()),
        piece("GET"@, look(None, seq![Effect::Bold])),
        piece(seq![' '], plain_look()),
        piece(address, look(Some(accent()), seq![])),
        piece(seq![' '], plain_look()),
        piece(dec(code as nat), status_look(code)),
        piece(seq![' '], plain_look()),
        piece(duration, look(None, seq![Effect::Dimmed])),
    ]
}

/// The second log line: a dimmed dot and whether the cache answered.
pub open spec fn cache_line_pieces(cached: bool) -> Seq<Piece> {
    seq![
        piece(seq![' ', ' '], plain_look()),
        piece(DOT@, look(None, seq![Effect::Dimmed])),
        piece(seq![' '], plain_look()),
        if cached {
            piece("[CACHE]"@, look(Some(Hue::Cyan), seq![]))
        } else {
            piece("[MISS]"@, look(None, seq![Effect::Dimmed]))
        },
    ]
}

fn dimmed_look() -> (res: Look)
    ensures
        res.spec() == look(None, seq![Effect::Dimmed]),
{
    let l = Look::plain().with(Effect::Dimmed);
    assert(l.spec() =~= look(None, seq![Effect::Dimmed]));
    l
}

fn hue_look(h: Hue) -> (res: Look)
    ensures
        res.spec() == look(Some(h), seq![]),
{
    let l = Look::fg(h);
    assert(l.spec() =~= look(Some(h), seq![]));
    l
}

/// The two log lines of a served request.
pub fn request_log_lines(address: &str, client: &str, code: u16, duration: &str, cached: bool) -> (res: (
    String,
    String,
))
    ensures
        renders(request_line_pieces(address@, client@, code, duration@), res.0@),
        renders(cache_line_pieces(cached), res.1@),
{
    proof {
        reveal_strlit(" ");
        reveal_strlit("  ");
    }
    let mut c = Canvas::new();
    c.paint(BULLET, &hue_look(Hue::Cyan));
    c.raw(" ");
    c.paint(client, &dimmed_look());
    c.raw(" ");
    let bold = Look::plain().with(Effect::Bold);
    assert(bold.spec() =~= look(None, seq![Effect::Bold]));
    c.paint("GET", &bold);
    c.raw(" ");
    c.paint(address, &hue_look(accent()));
    c.raw(" ");
    let code_text = decimal_u128(code as u128);
    let status = if 200 <= code && code < 300 {
        hue_look(Hue::Green)
    } else if 400 <= code && code < 500 {
        hue_look(Hue::Yellow)
    } else {
        hue_look(Hue::Red)
    };
    c.paint_chars(&code_text, &status);
    c.raw(" ");
    c.paint(duration, &dimmed_look());
    proof {
        assert(c.pieces() =~~= request_line_pieces(address@, client@, code, duration@));
    }
    let first = c.finish();
    let mut d = Canvas::new();
    d.raw("  ");
    d.paint(DOT, &dimmed_look());
    d.raw(" ");
    if cached {
        d.paint("[CACHE]", &hue_look(Hue::Cyan));
    } else {
        d.paint("[MISS]", &dimmed_look());
    }
    proof {
        assert(d.pieces() =~~= cache_line_pieces(cached));
    }
    (first, d.finish())
}

} // verus!
