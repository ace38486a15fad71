use crate::text::{chars_of, dec, push_chars, string_of};
pub mod motd;
pub mod strip;
pub mod table;
pub mod tree;

use vstd::prelude::*;

verus! {

#[verifier::external_type_specification]
#[verifier::external_body]
pub struct ExColoredColor(colored::Color);

#[verifier::external_type_specification]
#[verifier::external_body]
pub struct ExColoredStyles(colored::Styles);

#[verifier::external_type_specification]
#[verifier::external_body]
pub struct ExColoredStyle(colored::Style);

// ── Looks ────────────────────────────────────────────

/// A foreground color.
#[derive(Clone, Copy, Debug, PartialEq, Eq)]
pub enum Hue {
    Black,
    Red,
    Green,
    Yellow,
    Blue,
    Magenta,
    Cyan,
    White,
    Rgb(u8, u8, u8),
}

/// A text effect.
#[derive(Clone, Copy, Debug, PartialEq, Eq)]
pub enum Effect {
    Bold,
    Dimmed,
    Italic,
    Underline,
    Strikethrough,
}

/// How a piece of text is to be shown: an optional color and the effects
/// applied to it, in the order they were applied.
#[derive(Debug)]
pub struct Look {
    pub fg: Option<Hue>,
    pub effects: Vec<Effect>,
}

/// The view of a look: its color and its effects.
#[verifier::ext_equal]
pub struct LookSpec {
    pub fg: Option<Hue>,
    pub effects: Seq<Effect>,
}

impl Look {
    pub open spec fn spec(&self) -> LookSpec {
        LookSpec { fg: self.fg, effects: self.effects@ }
    }

    /// No color and no effect.
    pub fn plain() -> (res: Look)
        ensures
            res.fg is None,
            res.effects@ == Seq::<Effect>::empty(),
    {
        Look { fg: None, effects: Vec::new() }
    }

    /// The given color and no effect.
    pub fn fg(hue: Hue) -> (res: Look)
        ensures
            res.fg == Some(hue),
            res.effects@ == Seq::<Effect>::empty(),
    {
        Look { fg: Some(hue), effects: Vec::new() }
    }

    /// The same look with one more effect.
    pub fn with(self, e: Effect) -> (res: Look)
        ensures
            res.fg == self.fg,
            res.effects@ == self.effects@.push(e),
    {
        let mut effects = self.effects;
        effects.push(e);
        Look { fg: self.fg, effects }
    }
}

pub open spec fn look(fg: Option<Hue>, effects: Seq<Effect>) -> LookSpec {
    LookSpec { fg, effects }
}

pub open spec fn plain_look() -> LookSpec {
    LookSpec { fg: None, effects: Seq::empty() }
}

// ── What the terminal receives ───────────────────────

/// The escape that ends styled text.
pub open spec fn reset_seq() -> Seq<char> {
    seq!['\x1b', '[', '0', 'm']
}

/// The escape that starts text styled with `codes`.
pub open spec fn sgr(codes: Seq<char>) -> Seq<char> {
    seq!['\x1b', '['] + codes + seq!['m']
}

/// `text` with `prefix` inserted after every reset escape it contains, so
/// that styled text nested inside keeps the outer style afterwards.
pub open spec fn reapply(text: Seq<char>, prefix: Seq<char>) -> Seq<char>
    decreases text.len(),
{
    if text.len() == 0 {
        text
    } else if text.len() >= 4 && text.take(4) == reset_seq() {
        reset_seq() + prefix + reapply(text.skip(4), prefix)
    } else {
        seq![text[0]] + reapply(text.skip(1), prefix)
    }
}

/// The codes of the effects, in the order the terminal library writes them.
pub open spec fn effect_codes(effects: Seq<Effect>) -> Seq<Seq<char>> {
    (if effects.contains(Effect::Bold) { seq![seq!['1']] } else { seq![] }) + (if effects.contains(
        Effect::Dimmed,
    ) {
        seq![seq!['2']]
    } else {
        seq![]
    }) + (if effects.contains(Effect::Underline) {
        seq![seq!['4']]
    } else {
        seq![]
    }) + (if effects.contains(Effect::Italic) {
        seq![seq!['3']]
    } else {
        seq![]
    }) + (if effects.contains(Effect::Strikethrough) {
        seq![seq!['9']]
    } else {
        seq![]
    })
}

/// The foreground code the terminal library picks for an RGB color when the
/// terminal does not announce 24-bit color support.
pub uninterp spec fn nearest_basic_fg(r: u8, g: u8, b: u8) -> Seq<char>;

/// A basic foreground code: `30` to `37` or `90` to `97`.
pub open spec fn is_basic_fg(code: Seq<char>) -> bool {
    &&& code.len() == 2
    &&& code[0] == '3' || code[0] == '9'
    &&& '0' <= code[1] && code[1] <= '7'
}

/// The foreground code of a color; `truecolor` says whether the terminal
/// announced 24-bit color support, `basic` is the code used for an RGB color
/// without it.
pub open spec fn fg_code(h: Hue, truecolor: bool, basic: Seq<char>) -> Seq<char> {
    match h {
        Hue::Black => seq!['3', '0'],
        Hue::Red => seq!['3', '1'],
        Hue::Green => seq!['3', '2'],
        Hue::Yellow => seq!['3', '3'],
        Hue::Blue => seq!['3', '4'],
        Hue::Magenta => seq!['3', '5'],
        Hue::Cyan => seq!['3', '6'],
        Hue::White => seq!['3', '7'],
        Hue::Rgb(r, g, b) => if truecolor {
            seq!['3', '8', ';', '2', ';'] + dec(r as nat) + seq![';'] + dec(g as nat) + seq![';']
                + dec(b as nat)
        } else {
            basic
        },
    }
}

/// The parts joined with `;` between them.
pub open spec fn join_codes(parts: Seq<Seq<char>>) -> Seq<char>
    decreases parts.len(),
{
    if parts.len() == 0 {
        seq![]
    } else if parts.len() == 1 {
        parts[0]
    } else {
        parts[0] + seq![';'] + join_codes(parts.skip(1))
    }
}

/// All the codes of a look.
pub open spec fn look_codes(l: LookSpec, truecolor: bool, basic: Seq<char>) -> Seq<char> {
    join_codes(
        effect_codes(l.effects) + match l.fg {
            Some(h) => seq![fg_code(h, truecolor, basic)],
            None => seq![],
        },
    )
}

/// A look that changes nothing.
pub open spec fn is_plain(l: LookSpec) -> bool {
    l.fg is None && l.effects.len() == 0
}

/// `text` styled with `l` when colors are in use.
pub open spec fn styled(l: LookSpec, text: Seq<char>, truecolor: bool, basic: Seq<char>) -> Seq<
    char,
> {
    let prefix = sgr(look_codes(l, truecolor, basic));
    prefix + reapply(text, prefix) + reset_seq()
}

/// Whether `basic` can stand for the look's color without 24-bit color:
/// for an RGB color it is one of the basic foreground codes.
pub open spec fn basic_fits(l: LookSpec, basic: Seq<char>) -> bool {
    match l.fg {
        Some(Hue::Rgb(_, _, _)) => is_basic_fg(basic),
        _ => true,
    }
}

/// What painting `text` with `l` may give: the text itself when the look is
/// plain or colors are off (that depends on the environment), otherwise the
/// styled text with 24-bit color, or without it, where an RGB color is
/// written with a basic foreground code.
pub open spec fn painted_using(l: LookSpec, text: Seq<char>, out: Seq<char>, basic: Seq<char>) -> bool {
    if is_plain(l) {
        out == text
    } else {
        ||| out == text
        ||| out == styled(l, text, true, basic)
        ||| out == styled(l, text, false, basic) && basic_fits(l, basic)
    }
}

/// The code used for the look's color when 24-bit color is not announced.
pub open spec fn basic_code(l: LookSpec) -> Seq<char> {
    match l.fg {
        Some(Hue::Rgb(r, g, b)) => nearest_basic_fg(r, g, b),
        _ => seq![],
    }
}

pub open spec fn painted(l: LookSpec, text: Seq<char>, out: Seq<char>) -> bool {
    painted_using(l, text, out, basic_code(l))
}

#[verifier::external_body]
fn colored_color(h: Hue) -> colored::Color {
    match h {
        Hue::Black => colored::Color::Black,
        Hue::Red => colored::Color::Red,
        Hue::Green => colored::Color::Green,
        Hue::Yellow => colored::Color::Yellow,
        Hue::Blue => colored::Color::Blue,
        Hue::Magenta => colored::Color::Magenta,
        Hue::Cyan => colored::Color::Cyan,
        Hue::White => colored::Color::White,
        Hue::Rgb(r, g, b) => colored::Color::TrueColor { r, g, b },
    }
}

#[verifier::external_body]
fn colored_style(e: &Effect) -> colored::Styles {
    match e {
        Effect::Bold => colored::Styles::Bold,
        Effect::Dimmed => colored::Styles::Dimmed,
        Effect::Italic => colored::Styles::Italic,
        Effect::Underline => colored::Styles::Underline,
        Effect::Strikethrough => colored::Styles::Strikethrough,
    }
}

/// Calls `colored::ColoredString`'s `Display` on `text` with the look's color
/// and effects. Claims what the crate's source shows: a plain look leaves the
/// text as it is; otherwise, depending on the environment, the text is left as
/// it is or wrapped in the look's escape codes (written with 24-bit color or
/// with the library's nearest basic color, one of the sixteen basic
/// foreground codes), with the codes repeated after each reset escape inside
/// the text.
#[verifier::external_body]
pub fn paint(text: &str, look: &Look) -> (res: String)
    ensures
        painted_using(
            look.spec(),
            text@,
            res@,
            match look.fg {
                Some(Hue::Rgb(r, g, b)) => nearest_basic_fg(r, g, b),
                _ => seq![],
            },
        ),
{
    let mut cs = colored::ColoredString::from(text);
    cs.fgcolor = look.fg.map(colored_color);
    cs.style = look.effects.iter().map(colored_style).collect();
    cs.to_string()
}

/// Paint a sequence of characters; see `paint`.
pub fn paint_chars(text: &Vec<char>, look: &Look) -> (res: Vec<char>)
    ensures
        painted(look.spec(), text@, res@),
{
    let s = string_of(text);
    let out = paint(s.as_str(), look);
    chars_of(out.as_str())
}

// ── Sequences of painted pieces ──────────────────────

/// A piece of text and the look it is painted with.
#[verifier::ext_equal]
pub struct Piece {
    pub text: Seq<char>,
    pub look: LookSpec,
}

pub open spec fn piece(text: Seq<char>, l: LookSpec) -> Piece {
    Piece { text, look: l }
}

/// The parts one after the other.
pub open spec fn concat(parts: Seq<Seq<char>>) -> Seq<char>
    decreases parts.len(),
{
    if parts.len() == 0 {
        seq![]
    } else {
        concat(parts.drop_last()) + parts.last()
    }
}

/// `parts` are paintings of `pieces`, one each.
pub open spec fn paints(pieces: Seq<Piece>, parts: Seq<Seq<char>>) -> bool {
    &&& parts.len() == pieces.len()
    &&& forall|i: int| 0 <= i < parts.len() ==> painted(pieces[i].look, pieces[i].text, #[trigger] parts[i])
}

/// `out` is what painting the pieces one after the other may give.
pub open spec fn renders(pieces: Seq<Piece>, out: Seq<char>) -> bool {
    exists|parts: Seq<Seq<char>>| paints(pieces, parts) && out == concat(parts)
}

pub proof fn lemma_paints_push(pieces: Seq<Piece>, parts: Seq<Seq<char>>, p: Piece, part: Seq<char>)
    requires
        paints(pieces, parts),
        painted(p.look, p.text, part),
    ensures
        paints(pieces.push(p), parts.push(part)),
        concat(parts.push(part)) == concat(parts) + part,
{
    assert(parts.push(part).drop_last() == parts);
    assert forall|i: int| 0 <= i < parts.push(part).len() implies painted(
        pieces.push(p)[i].look,
        pieces.push(p)[i].text,
        #[trigger] parts.push(part)[i],
    ) by {
        if i < parts.len() {
            assert(parts.push(part)[i] == parts[i]);
        }
    }
}

/// A single plain piece renders as its own text.
pub proof fn lemma_single_plain(t: Seq<char>)
    ensures
        renders(seq![piece(t, plain_look())], t),
{
    let parts = seq![t];
    assert(parts.drop_last() =~= Seq::<Seq<char>>::empty());
    assert(parts.last() == t);
    reveal_with_fuel(concat, 2);
    assert(concat(parts) =~= t);
    assert(paints(seq![piece(t, plain_look())], parts));
}

/// A plain piece paints to its own text.
pub proof fn lemma_plain_painted(text: Seq<char>)
    ensures
        painted(plain_look(), text, text),
{
}

/// When every piece is plain, rendering gives the texts one after the other.
pub proof fn lemma_renders_plain(pieces: Seq<Piece>, out: Seq<char>)
    requires
        renders(pieces, out),
        forall|i: int| 0 <= i < pieces.len() ==> is_plain(#[trigger] pieces[i].look),
    ensures
        out == concat(pieces.map_values(|p: Piece| p.text)),
    decreases pieces.len(),
{
    let parts = choose|parts: Seq<Seq<char>>| paints(pieces, parts) && out == concat(parts);
    lemma_parts_plain(pieces, parts);
}

proof fn lemma_parts_plain(pieces: Seq<Piece>, parts: Seq<Seq<char>>)
    requires
        paints(pieces, parts),
        forall|i: int| 0 <= i < pieces.len() ==> is_plain(#[trigger] pieces[i].look),
    ensures
        concat(parts) == concat(pieces.map_values(|p: Piece| p.text)),
    decreases pieces.len(),
{
    if pieces.len() > 0 {
        let n = pieces.len() - 1;
        assert(is_plain(pieces[n].look));
        assert(painted(pieces[n].look, pieces[n].text, parts[n]));
        assert forall|i: int| 0 <= i < parts.drop_last().len() implies painted(
            pieces.drop_last()[i].look,
            pieces.drop_last()[i].text,
            #[trigger] parts.drop_last()[i],
        ) by {
            assert(painted(pieces[i].look, pieces[i].text, parts[i]));
        }
        assert forall|i: int| 0 <= i < pieces.drop_last().len() implies is_plain(
            #[trigger] pieces.drop_last()[i].look,
        ) by {
            assert(is_plain(pieces[i].look));
        }
        lemma_parts_plain(pieces.drop_last(), parts.drop_last());
        assert(pieces.map_values(|p: Piece| p.text).drop_last() == pieces.drop_last().map_values(
            |p: Piece| p.text,
        ));
    }
}

} // verus!

verus! {

// ── Palette ──────────────────────────────────────────
/// Soft blue — addresses, paths, server names.
#[verifier::allow_in_spec]
pub fn accent() -> Hue
    returns
        Hue::Rgb(135, 175, 215),
{
    Hue::Rgb(135, 175, 215)
}

/// Soft teal — informational values.
#[verifier::allow_in_spec]
pub fn info() -> Hue
    returns
        Hue::Rgb(175, 215, 215),
{
    Hue::Rgb(175, 215, 215)
}

/// Gray — secondary, contextual text.
#[verifier::allow_in_spec]
pub fn gray() -> Hue
    returns
        Hue::Rgb(128, 128, 128),
{
    Hue::Rgb(128, 128, 128)
}

/// Dark gray — tree lines, table borders.
#[verifier::allow_in_spec]
pub fn subtle() -> Hue
    returns
        Hue::Rgb(88, 88, 88),
{
    Hue::Rgb(88, 88, 88)
}

/// Very dark gray — unfilled progress bar.
#[verifier::allow_in_spec]
pub fn shadow() -> Hue
    returns
        Hue::Rgb(68, 68, 68),
{
    Hue::Rgb(68, 68, 68)
}

// ── Symbols ──────────────────────────────────────────
pub const BULLET: &'static str = "●";

pub const CHECK: &'static str = "✓";

pub const CROSS: &'static str = "✗";

pub const WARN: &'static str = "⚠";

pub const DOT: &'static str = "·";

/// Spinner animation frames, reserved for long operations.
pub const SPINNER_FRAMES: [&'static str; 4] = ["◐", "◓", "◑", "◒"];

// ── Helper Formatters ────────────────────────────────

/// Two painted texts with a separator between them.
fn join_two(a: String, sep: &str, b: String) -> (res: String)
    ensures
        res@ == a@ + sep@ + b@,
{
    let mut out = chars_of(a.as_str());
    let s = chars_of(sep);
    push_chars(&mut out, &s);
    let bc = chars_of(b.as_str());
    push_chars(&mut out, &bc);
    string_of(&out)
}

/// Section header:  `● mc.hypixel.net`
pub fn header(text: &str) -> (res: String)
    ensures
        exists|a: Seq<char>, b: Seq<char>|
            painted(look(Some(Hue::Cyan), seq![Effect::Bold]), BULLET@, a) && painted(
                look(Some(accent()), seq![]),
                text@,
                b,
            ) && res@ == a + seq![' '] + b,
{
    let la = Look::fg(Hue::Cyan).with(Effect::Bold);
    let lb = Look::fg(accent());
    let a = paint(BULLET, &la);
    let b = paint(text, &lb);
    let ghost (av, bv) = (a@, b@);
    let res = join_two(a, " ", b);
    proof {
        reveal_strlit(" ");
        assert(la.spec() =~= look(Some(Hue::Cyan), seq![Effect::Bold]));
        assert(lb.spec() =~= look(Some(accent()), seq![]));
        assert(res@ == av + seq![' '] + bv);
    }
    res
}

/// Success line:  `✓ message`
pub fn success(text: &str) -> (res: String)
    ensures
        exists|a: Seq<char>, b: Seq<char>|
            painted(look(Some(Hue::Green), seq![]), CHECK@, a) && painted(
                look(Some(accent()), seq![]),
                text@,
                b,
            ) && res@ == a + seq![' '] + b,
{
    let la = Look::fg(Hue::Green);
    let lb = Look::fg(accent());
    let a = paint(CHECK, &la);
    let b = paint(text, &lb);
    let ghost (av, bv) = (a@, b@);
    let res = join_two(a, " ", b);
    proof {
        reveal_strlit(" ");
        assert(la.spec() =~= look(Some(Hue::Green), seq![]));
        assert(lb.spec() =~= look(Some(accent()), seq![]));
        assert(res@ == av + seq![' '] + bv);
    }
    res
}

/// Error line:  `✗ message`
pub fn error(message: &str) -> (res: String)
    ensures
        exists|a: Seq<char>, b: Seq<char>|
            painted(look(Some(Hue::Red), seq![Effect::Bold]), CROSS@, a) && painted(
                look(Some(Hue::White), seq![]),
                message@,
                b,
            ) && res@ == a + seq![' '] + b,
{
    let la = Look::fg(Hue::Red).with(Effect::Bold);
    let lb = Look::fg(Hue::White);
    let a = paint(CROSS, &la);
    let b = paint(message, &lb);
    let ghost (av, bv) = (a@, b@);
    let res = join_two(a, " ", b);
    proof {
        reveal_strlit(" ");
        assert(la.spec() =~= look(Some(Hue::Red), seq![Effect::Bold]));
        assert(lb.spec() =~= look(Some(Hue::White), seq![]));
        assert(res@ == av + seq![' '] + bv);
    }
    res
}

/// Warning line:  `⚠ message`
pub fn warning(message: &str) -> (res: String)
    ensures
        exists|a: Seq<char>, b: Seq<char>|
            painted(look(Some(Hue::Yellow), seq![]), WARN@, a) && painted(
                look(Some(Hue::White), seq![]),
                message@,
                b,
            ) && res@ == a + seq![' '] + b,
{
    let la = Look::fg(Hue::Yellow);
    let lb = Look::fg(Hue::White);
    let a = paint(WARN, &la);
    let b = paint(message, &lb);
    let ghost (av, bv) = (a@, b@);
    let res = join_two(a, " ", b);
    proof {
        reveal_strlit(" ");
        assert(la.spec() =~= look(Some(Hue::Yellow), seq![]));
        assert(lb.spec() =~= look(Some(Hue::White), seq![]));
        assert(res@ == av + seq![' '] + bv);
    }
    res
}

/// Sub-detail:  `  · label  value`
pub fn detail(label: &str, value: &str) -> (res: String)
    ensures
        exists|a: Seq<char>, b: Seq<char>, c: Seq<char>|
            painted(look(None, seq![Effect::Dimmed]), DOT@, a) && painted(
                look(None, seq![Effect::Dimmed]),
                label@,
                b,
            ) && painted(look(Some(info()), seq![]), value@, c) && res@ == seq![' ', ' '] + a + seq![
                ' ',
            ] + b + seq![' ', ' '] + c,
{
    let la = Look::plain().with(Effect::Dimmed);
    let lb = Look::plain().with(Effect::Dimmed);
    let lc = Look::fg(info());
    let a = paint(DOT, &la);
    let b = paint(label, &lb);
    let c = paint(value, &lc);
    let ghost (av, bv, cv) = (a@, b@, c@);
    proof {
        assert(la.spec() =~= look(None, seq![Effect::Dimmed]));
        assert(lb.spec() =~= look(None, seq![Effect::Dimmed]));
        assert(lc.spec() =~= look(Some(info()), seq![]));
    }
    let ab = join_two(a, " ", b);
    let abc = join_two(ab, "  ", c);
    let mut out = chars_of("  ");
    let rest = chars_of(abc.as_str());
    push_chars(&mut out, &rest);
    proof {
        reveal_strlit(" ");
        reveal_strlit("  ");
        assert(out@ == seq![' ', ' '] + av + seq![' '] + bv + seq![' ', ' '] + cv);
    }
    string_of(&out)
}

/// Emphasized value (white bold).
pub fn value(v: &str) -> (res: String)
    ensures
        painted(look(Some(Hue::White), seq![Effect::Bold]), v@, res@),
{
    let l = Look::fg(Hue::White).with(Effect::Bold);
    proof {
        assert(l.spec() =~= look(Some(Hue::White), seq![Effect::Bold]));
    }
    paint(v, &l)
}

/// Muted contextual note.
pub fn muted(text: &str) -> (res: String)
    ensures
        painted(look(Some(gray()), seq![]), text@, res@),
{
    let l = Look::fg(gray());
    proof {
        assert(l.spec() =~= look(Some(gray()), seq![]));
    }
    paint(text, &l)
}

} // verus!

verus! {

/// Text being assembled out of painted pieces.
pub struct Canvas {
    out: Vec<char>,
    pieces: Ghost<Seq<Piece>>,
    parts: Ghost<Seq<Seq<char>>>,
}

impl Canvas {
    #[verifier::type_invariant]
    spec fn inv(self) -> bool {
        paints(self.pieces@, self.parts@) && self.out@ == concat(self.parts@)
    }

    /// The pieces painted so far, in order.
    pub closed spec fn pieces(self) -> Seq<Piece> {
        self.pieces@
    }

    pub fn new() -> (res: Canvas)
        ensures
            res.pieces() == Seq::<Piece>::empty(),
    {
        Canvas { out: Vec::new(), pieces: Ghost(Seq::empty()), parts: Ghost(Seq::empty()) }
    }

    fn add_part(&mut self, part: &Vec<char>, p: Ghost<Piece>)
        requires
            painted(p@.look, p@.text, part@),
        ensures
            final(self).pieces() == old(self).pieces().push(p@),
    {
        proof {
            use_type_invariant(&*self);
            lemma_paints_push(self.pieces@, self.parts@, p@, part@);
        }
        let ghost new_pieces = self.pieces@.push(p@);
        let ghost new_parts = self.parts@.push(part@);
        let mut tmp = Canvas::new();
        std::mem::swap(self, &mut tmp);
        let Canvas { mut out, pieces: _, parts: _ } = tmp;
        push_chars(&mut out, part);
        *self = Canvas { out, pieces: Ghost(new_pieces), parts: Ghost(new_parts) };
    }

    /// Paint characters with a look.
    pub fn paint_chars(&mut self, text: &Vec<char>, look: &Look)
        ensures
            final(self).pieces() == old(self).pieces().push(piece(text@, look.spec())),
    {
        let part = paint_chars(text, look);
        self.add_part(&part, Ghost(piece(text@, look.spec())));
    }

    /// Paint a string with a look.
    pub fn paint(&mut self, text: &str, look: &Look)
        ensures
            final(self).pieces() == old(self).pieces().push(piece(text@, look.spec())),
    {
        let t = chars_of(text);
        self.paint_chars(&t, look);
    }

    /// Add characters as they are.
    pub fn raw_chars(&mut self, text: &Vec<char>)
        ensures
            final(self).pieces() == old(self).pieces().push(piece(text@, plain_look())),
    {
        self.add_part(text, Ghost(piece(text@, plain_look())));
    }

    /// Add a string as it is.
    pub fn raw(&mut self, text: &str)
        ensures
            final(self).pieces() == old(self).pieces().push(piece(text@, plain_look())),
    {
        let t = chars_of(text);
        self.raw_chars(&t);
    }

    /// The text assembled.
    pub fn finish(self) -> (res: String)
        ensures
            renders(self.pieces(), res@),
    {
        proof {
            use_type_invariant(&self);
        }
        string_of(&self.out)
    }
}

} // verus!
