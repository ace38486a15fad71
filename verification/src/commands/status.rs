use crate::mojang::profile::{strip_dashes, without_dashes, PlayerProfile};
use crate::style::motd::{description_output, render as render_motd};
use crate::style::strip::{lemma_texts_prepend, lemma_texts_single, texts};
use crate::style::tree::{row, row_continued, tree_pieces, Row, Tree};
use crate::style::{
    accent, gray, info, look, piece, plain_look, renders, Canvas, Effect, Hue, Look, LookSpec, Piece,
};
use crate::text::{
    chars_of, dec, dec_int, decimal_i64, decimal_u128, push_chars, push_str, split_lines, string_of,
    text_lines,
};
use crate::types::{PlayerSample, ServerInfo, ServerStatus};
use vstd::prelude::*;
use vstd::string::StringSliceAdditionalSpecFns;
use vstd::utf8::encode_utf8;

verus! {

/// `s` with a comma before every character that has a positive multiple of
/// three characters from it to the end, over the first `k` characters.
pub open spec fn grouped(s: Seq<char>, k: nat) -> Seq<char>
    decreases k,
{
    if k == 0 {
        seq![]
    } else {
        let i = k - 1;
        grouped(s, (k - 1) as nat) + (if i > 0 && (s.len() - i) % 3 == 0 {
            seq![',']
        } else {
            seq![]
        }) + seq![s[i as int]]
    }
}

/// The decimal text of `n` with thousands separated by commas.
pub open spec fn format_number_spec(n: int) -> Seq<char> {
    grouped(dec_int(n), dec_int(n).len())
}

/// The text without its commas.
pub open spec fn drop_commas(s: Seq<char>) -> Seq<char>
    decreases s.len(),
{
    if s.len() == 0 {
        Seq::<char>::empty()
    } else if s.last() == ',' {
        drop_commas(s.drop_last())
    } else {
        drop_commas(s.drop_last()).push(s.last())
    }
}

proof fn lemma_drop_commas_concat(a: Seq<char>, b: Seq<char>)
    ensures
        drop_commas(a + b) == drop_commas(a) + drop_commas(b),
    decreases b.len(),
{
    if b.len() == 0 {
        assert(a + b =~= a);
        assert(drop_commas(a) + Seq::<char>::empty() =~= drop_commas(a));
    } else {
        lemma_drop_commas_concat(a, b.drop_last());
        assert((a + b).drop_last() =~= a + b.drop_last());
        assert((a + b).last() == b.last());
        if b.last() != ',' {
            assert(drop_commas(a) + drop_commas(b.drop_last()).push(b.last()) =~= (drop_commas(a)
                + drop_commas(b.drop_last())).push(b.last()));
        }
    }
}

proof fn lemma_grouped_digits(s: Seq<char>, k: nat)
    requires
        k <= s.len(),
        forall|i: int| 0 <= i < s.len() ==> #[trigger] s[i] != ',',
    ensures
        drop_commas(grouped(s, k)) == s.take(k as int),
    decreases k,
{
    if k == 0 {
        assert(s.take(0) =~= Seq::<char>::empty());
    } else {
        let i = k - 1;
        lemma_grouped_digits(s, (k - 1) as nat);
        let sep: Seq<char> = if i > 0 && (s.len() - i) % 3 == 0 {
            seq![',']
        } else {
            seq![]
        };
        let g = grouped(s, (k - 1) as nat);
        lemma_drop_commas_concat(g + sep, seq![s[i as int]]);
        lemma_drop_commas_concat(g, sep);
        assert(drop_commas(sep) =~= Seq::<char>::empty()) by {
            assert(drop_commas(Seq::<char>::empty()) == Seq::<char>::empty());
            if sep.len() > 0 {
                assert(sep.drop_last() =~= Seq::<char>::empty());
                assert(sep.last() == ',');
            }
        }
        let one: Seq<char> = seq![s[i as int]];
        assert(one.drop_last() =~= Seq::<char>::empty());
        assert(one.last() == s[i as int] && s[i as int] != ',');
        assert(drop_commas(one.drop_last()) == Seq::<char>::empty());
        assert(drop_commas(one) =~= Seq::<char>::empty().push(s[i as int]));
        assert(drop_commas(one) =~= one);
        assert(s.take(k as int) =~= s.take(i as int).push(s[i as int]));
    }
}

proof fn lemma_dec_no_commas(n: nat)
    ensures
        forall|i: int| 0 <= i < dec(n).len() ==> #[trigger] dec(n)[i] != ',',
    decreases n,
{
    let d = (n % 10) as nat;
    assert(((48 + d) as char) as int == 48 + d);
    if n >= 10 {
        lemma_dec_no_commas(n / 10);
        assert(dec(n) == dec(n / 10).push(crate::text::digit_char(d)));
    }
}

/// Taking the thousands separators out of a formatted number gives its
/// decimal text back.
pub proof fn lemma_format_number_digits(n: int)
    ensures
        drop_commas(format_number_spec(n)) == dec_int(n),
{
    let d = dec_int(n);
    if n < 0 {
        lemma_dec_no_commas((-n) as nat);
        assert forall|i: int| 0 <= i < d.len() implies #[trigger] d[i] != ',' by {
            if i > 0 {
                assert(d[i] == dec((-n) as nat)[i - 1]);
            }
        }
    } else {
        lemma_dec_no_commas(n as nat);
    }
    lemma_grouped_digits(d, d.len());
    assert(d.take(d.len() as int) =~= d);
}

pub fn format_number(n: i32) -> (res: String)
    ensures
        res@ == format_number_spec(n as int),
{
    let s = decimal_i64(n as i64);
    let mut result: Vec<char> = Vec::new();
    let mut i: usize = 0;
    while i < s.len()
        invariant
            i <= s@.len(),
            s@ == dec_int(n as int),
            result@ == grouped(s@, i as nat),
        decreases s@.len() - i,
    {
        if i > 0 && (s.len() - i) % 3 == 0 {
            result.push(',');
        }
        result.push(s[i]);
        i += 1;
    }
    string_of(&result)
}

/// Whether a sampled player's id is worth a profile lookup: once the dashes
/// are removed it must not be all zeros (the fake ids some servers use) and
/// must be 32 bytes long.
pub open spec fn lookup_wanted(id: Seq<char>) -> bool {
    let clean = without_dashes(id);
    !(forall|i: int| 0 <= i < clean.len() ==> clean[i] == '0') && (encode_utf8(clean).len() as usize) == 32
}

/// Decide whether to look up a sampled player's profile.
pub fn profile_lookup_wanted(id: &str) -> (res: bool)
    ensures
        res == lookup_wanted(id@),
{
    let clean = strip_dashes(id);
    let mut all_zero = true;
    let mut i: usize = 0;
    while i < clean.len()
        invariant
            i <= clean@.len(),
            all_zero == (forall|j: int| 0 <= j < i ==> clean@[j] == '0'),
        decreases clean@.len() - i,
    {
        if clean[i] != '0' {
            all_zero = false;
        }
        i += 1;
    }
    let s = string_of(&clean);
    !all_zero && s.as_str().len() == 32
}

} // verus!

verus! {

// ── The shape of a status report ─────────────────────

/// A row of the report: its label, the pieces its value is painted from,
/// the further lines of its value, and the pieces of each child row (whose
/// labels are empty).
pub struct Shape {
    pub label: Seq<char>,
    pub value: Seq<Piece>,
    pub more: Seq<Seq<char>>,
    pub children: Seq<Seq<Piece>>,
}

pub open spec fn shape(label: Seq<char>, value: Seq<Piece>, children: Seq<Seq<Piece>>) -> Shape {
    Shape { label, value, more: seq![], children }
}

/// `r` is a rendering of `sh`.
pub open spec fn row_realizes(sh: Shape, r: Row) -> bool {
    &&& r.label == sh.label
    &&& renders(sh.value, r.value)
    &&& r.more == sh.more
    &&& r.children.len() == sh.children.len()
    &&& forall|j: int|
        0 <= j < r.children.len() ==> (#[trigger] r.children[j]).0 == Seq::<char>::empty() && renders(
            sh.children[j],
            r.children[j].1,
        )
}

/// `rows` are renderings of `shapes`, one each.
pub open spec fn realizes(shapes: Seq<Shape>, rows: Seq<Row>) -> bool {
    &&& rows.len() == shapes.len()
    &&& forall|i: int| 0 <= i < rows.len() ==> row_realizes(shapes[i], #[trigger] rows[i])
}

pub open spec fn fg_look(h: Hue) -> LookSpec {
    look(Some(h), seq![])
}

pub open spec fn bold_look(h: Hue) -> LookSpec {
    look(Some(h), seq![Effect::Bold])
}

pub open spec fn dimmed_look() -> LookSpec {
    look(None, seq![Effect::Dimmed])
}

pub open spec fn version_pieces(st: ServerStatus) -> Seq<Piece> {
    seq![
        piece(st.version.name@, bold_look(Hue::White)),
        piece(" "@, plain_look()),
        piece("("@ + dec_int(st.version.protocol as int) + ")"@, fg_look(gray())),
    ]
}

pub open spec fn latency_pieces(nanos: u128) -> Seq<Piece> {
    let ms = nanos / 1_000_000;
    seq![
        piece(
            dec(ms as nat) + "ms"@,
            bold_look(
                if ms < 50 {
                    Hue::Green
                } else if ms < 150 {
                    Hue::Yellow
                } else {
                    Hue::Red
                },
            ),
        ),
    ]
}

pub open spec fn players_pieces(st: ServerStatus) -> Seq<Piece> {
    seq![
        piece(format_number_spec(st.players.online as int), bold_look(Hue::White)),
        piece("/"@ + format_number_spec(st.players.max as int), plain_look()),
    ]
}

/// The profile looked up for the first entry named `name`, searching from `k`.
pub open spec fn find_profile(
    profiles: Seq<(String, Option<PlayerProfile>)>,
    name: Seq<char>,
    k: nat,
) -> Option<Option<PlayerProfile>>
    decreases profiles.len() - k,
{
    if k >= profiles.len() {
        None
    } else if profiles[k as int].0@ == name {
        Some(profiles[k as int].1)
    } else {
        find_profile(profiles, name, k + 1)
    }
}

/// What a profile has to show: `skin`, `cape`, both, or nothing.
pub open spec fn extras_text(p: PlayerProfile) -> Seq<char> {
    if p.skin_url is Some && p.cape_url is Some {
        "skin"@ + ", "@ + "cape"@
    } else if p.skin_url is Some {
        "skin"@
    } else {
        "cape"@
    }
}

/// The line of a sampled player: the name, then what its profile has.
pub open spec fn player_pieces(
    player: PlayerSample,
    profiles: Seq<(String, Option<PlayerProfile>)>,
) -> Seq<Piece> {
    seq![piece(player.name@, fg_look(accent()))] + match find_profile(profiles, player.name@, 0) {
        Some(Some(p)) => if p.skin_url is Some || p.cape_url is Some {
            seq![piece(" "@, plain_look()), piece("["@ + extras_text(p) + "]"@, fg_look(gray()))]
        } else {
            seq![]
        },
        _ => seq![],
    }
}

/// The lines of the first `n` sampled players.
pub open spec fn sample_children(
    sample: Seq<PlayerSample>,
    profiles: Seq<(String, Option<PlayerProfile>)>,
    n: nat,
) -> Seq<Seq<Piece>>
    decreases n,
{
    if n == 0 {
        seq![]
    } else {
        sample_children(sample, profiles, (n - 1) as nat).push(
            player_pieces(sample[n - 1], profiles),
        )
    }
}

pub proof fn lemma_sample_children_len(
    sample: Seq<PlayerSample>,
    profiles: Seq<(String, Option<PlayerProfile>)>,
    n: nat,
)
    ensures
        sample_children(sample, profiles, n).len() == n,
    decreases n,
{
    if n > 0 {
        lemma_sample_children_len(sample, profiles, (n - 1) as nat);
    }
}

/// How many sampled players the players row lists.
pub open spec fn shown_count(sample_len: nat) -> nat {
    if sample_len < 8 {
        sample_len
    } else {
        8
    }
}

/// The line that counts the players online but not listed.
pub open spec fn more_pieces(remaining: int) -> Seq<Piece> {
    seq![piece("\u{2026} "@ + format_number_spec(remaining) + " more"@, dimmed_look())]
}

/// The child lines of the players row: at most eight sampled players, then,
/// when more players are online than listed, a line that counts the rest.
pub open spec fn players_children(
    sample: Seq<PlayerSample>,
    profiles: Seq<(String, Option<PlayerProfile>)>,
    online: int,
) -> Seq<Seq<Piece>> {
    let shown = shown_count(sample.len());
    sample_children(sample, profiles, shown) + if online - shown > 0 {
        seq![more_pieces(online - shown)]
    } else {
        seq![]
    }
}

/// The byte count of a favicon's data: the bytes after its first comma, or
/// all of them.
pub open spec fn favicon_data_len(f: Seq<char>) -> nat {
    let b = encode_utf8(f);
    match crate::text::find_byte(b, 44) {
        Some(i) => (b.len() - i - 1) as nat,
        None => b.len(),
    }
}

pub open spec fn opt_shape(cond: bool, s: Shape) -> Seq<Shape> {
    if cond {
        seq![s]
    } else {
        seq![]
    }
}


/// The first rows: version, latency when measured, players.
#[verifier::opaque]
pub open spec fn head_shapes(info: ServerInfo, profiles: Seq<(String, Option<PlayerProfile>)>) -> Seq<
    Shape,
> {
    seq![shape("Version"@, version_pieces(info.status), seq![])] + opt_shape(
        info.latency_nanos > 0,
        shape("Latency"@, latency_pieces(info.latency_nanos), seq![]),
    ) + seq![players_shape(info.status, profiles)]
}

/// The MOTD row, when the rendered MOTD has a line.
#[verifier::opaque]
pub open spec fn motd_shapes(motd: Seq<char>) -> Seq<Shape> {
    opt_shape(text_lines(motd).len() > 0, motd_shape(text_lines(motd)))
}

/// The last rows: secure chat, chat preview, block status, favicon, mods, each when known.
#[verifier::opaque]
pub open spec fn flag_shapes(info: ServerInfo) -> Seq<Shape> {
    let st = info.status;
    opt_shape(
        st.enforces_secure_chat is Some,
        shape(
            "Secure"@,
            if st.enforces_secure_chat == Some(true) {
                seq![piece("enforced"@, fg_look(Hue::Green))]
            } else {
                seq![piece("not enforced"@, fg_look(Hue::Red))]
            },
            seq![],
        ),
    ) + opt_shape(
        st.previews_chat is Some,
        shape(
            "Preview"@,
            if st.previews_chat == Some(true) {
                seq![piece("enabled"@, fg_look(Hue::Green))]
            } else {
                seq![piece("disabled"@, fg_look(gray()))]
            },
            seq![],
        ),
    ) + opt_shape(
        info.blocked is Some,
        shape(
            "Blocked"@,
            if info.blocked == Some(true) {
                seq![piece("Yes"@, bold_look(Hue::Red))]
            } else {
                seq![piece("no"@, fg_look(Hue::Green))]
            },
            seq![],
        ),
    ) + opt_shape(
        st.favicon is Some,
        shape(
            "Favicon"@,
            seq![
                piece(
                    "64\u{d7}64 embedded (~"@ + dec(favicon_data_len(st.favicon.unwrap()@))
                        + " bytes)"@,
                    dimmed_look(),
                ),
            ],
            seq![],
        ),
    ) + opt_shape(
        st.forge_data is Some || st.mod_info is Some,
        shape(
            "Mods"@,
            seq![piece("Forge/modded server detected"@, fg_look(crate::style::info()))],
            seq![],
        ),
    )
}

/// The rows of the status report, given the rendered MOTD text.
pub open spec fn status_shapes(
    info: ServerInfo,
    profiles: Seq<(String, Option<PlayerProfile>)>,
    motd: Seq<char>,
) -> Seq<Shape> {
    head_shapes(info, profiles) + motd_shapes(motd) + flag_shapes(info)
}

pub open spec fn players_shape(st: ServerStatus, profiles: Seq<(String, Option<PlayerProfile>)>) -> Shape {
    shape(
        "Players"@,
        players_pieces(st),
        if st.players.sample@.len() == 0 {
            seq![]
        } else {
            players_children(st.players.sample@, profiles, st.players.online as int)
        },
    )
}

/// The MOTD row: its first line as the value, the others as further lines
/// of the value.
pub open spec fn motd_shape(ls: Seq<Seq<char>>) -> Shape {
    Shape { label: "MOTD"@, value: seq![piece(ls[0], plain_look())], more: ls.skip(1), children: seq![] }
}

// ── What the rows say ────────────────────────────────

proof fn lemma_texts_two(a: Piece, b: Piece)
    ensures
        texts(seq![a, b]) == a.text + b.text,
{
    assert(seq![a, b] =~= seq![a] + seq![b]);
    lemma_texts_prepend(a, seq![b]);
    lemma_texts_single(b);
}

proof fn lemma_texts_three(a: Piece, b: Piece, c: Piece)
    ensures
        texts(seq![a, b, c]) == a.text + b.text + c.text,
{
    assert(seq![a, b, c] =~= seq![a] + seq![b, c]);
    lemma_texts_prepend(a, seq![b, c]);
    lemma_texts_two(b, c);
    assert(a.text + (b.text + c.text) =~= a.text + b.text + c.text);
}

/// The rows for the flags of a status, over every status: the secure-chat
/// row says `enforced` exactly when the server enforces secure chat and
/// `not enforced` when it says it does not; the preview row says `enabled`
/// or `disabled`; the block row `Yes` or `no`; then the favicon and mod
/// rows; each row present exactly when its field is known, in that order.
pub proof fn lemma_flag_rows(info: ServerInfo)
    ensures
        ({
            let st = info.status;
            let fs = flag_shapes(info);
            let ns: int = if st.enforces_secure_chat is Some { 1 } else { 0 };
            let np: int = if st.previews_chat is Some { 1 } else { 0 };
            let nb: int = if info.blocked is Some { 1 } else { 0 };
            let nf: int = if st.favicon is Some { 1 } else { 0 };
            let nm: int = if st.forge_data is Some || st.mod_info is Some { 1 } else { 0 };
            &&& fs.len() == ns + np + nb + nf + nm
            &&& st.enforces_secure_chat == Some(true) ==> fs[0].label == "Secure"@ && texts(
                fs[0].value,
            ) == "enforced"@
            &&& st.enforces_secure_chat == Some(false) ==> fs[0].label == "Secure"@ && texts(
                fs[0].value,
            ) == "not enforced"@
            &&& st.previews_chat == Some(true) ==> fs[ns].label == "Preview"@ && texts(
                fs[ns].value,
            ) == "enabled"@
            &&& st.previews_chat == Some(false) ==> fs[ns].label == "Preview"@ && texts(
                fs[ns].value,
            ) == "disabled"@
            &&& info.blocked == Some(true) ==> fs[ns + np].label == "Blocked"@ && texts(
                fs[ns + np].value,
            ) == "Yes"@
            &&& info.blocked == Some(false) ==> fs[ns + np].label == "Blocked"@ && texts(
                fs[ns + np].value,
            ) == "no"@
            &&& st.favicon is Some ==> fs[ns + np + nb].label == "Favicon"@
            &&& nm == 1 ==> fs[ns + np + nb + nf].label == "Mods"@ && texts(
                fs[ns + np + nb + nf].value,
            ) == "Forge/modded server detected"@
        }),
{
    reveal(flag_shapes);
    lemma_texts_single(piece("enforced"@, fg_look(Hue::Green)));
    lemma_texts_single(piece("not enforced"@, fg_look(Hue::Red)));
    lemma_texts_single(piece("enabled"@, fg_look(Hue::Green)));
    lemma_texts_single(piece("disabled"@, fg_look(gray())));
    lemma_texts_single(piece("Yes"@, bold_look(Hue::Red)));
    lemma_texts_single(piece("no"@, fg_look(Hue::Green)));
    lemma_texts_single(piece("Forge/modded server detected"@, fg_look(crate::style::info())));
}

/// The first rows of a status, over every status: the version row shows the
/// version name, a space and the protocol number in brackets; a latency row
/// shows the whole milliseconds and `ms`, present exactly when a latency was
/// measured; the players row shows the players online and the maximum, with
/// thousands separated by commas, and `/` between them.
pub proof fn lemma_head_rows(info: ServerInfo, profiles: Seq<(String, Option<PlayerProfile>)>)
    ensures
        ({
            let hs = head_shapes(info, profiles);
            let st = info.status;
            let nl: int = if info.latency_nanos > 0 { 1 } else { 0 };
            &&& hs.len() == 2 + nl
            &&& hs[0].label == "Version"@
            &&& texts(hs[0].value) == st.version.name@ + " "@ + "("@ + dec_int(
                st.version.protocol as int,
            ) + ")"@
            &&& info.latency_nanos > 0 ==> hs[1].label == "Latency"@ && texts(hs[1].value) == dec(
                (info.latency_nanos / 1_000_000) as nat,
            ) + "ms"@
            &&& hs[1 + nl].label == "Players"@
            &&& texts(hs[1 + nl].value) == format_number_spec(st.players.online as int) + "/"@
                + format_number_spec(st.players.max as int)
        }),
{
    reveal(head_shapes);
    let st = info.status;
    let vp = version_pieces(st);
    lemma_texts_three(vp[0], vp[1], vp[2]);
    assert(vp =~= seq![vp[0], vp[1], vp[2]]);
    assert(st.version.name@ + " "@ + ("("@ + dec_int(st.version.protocol as int) + ")"@)
        =~= st.version.name@ + " "@ + "("@ + dec_int(st.version.protocol as int) + ")"@);
    let lp = latency_pieces(info.latency_nanos);
    lemma_texts_single(lp[0]);
    assert(lp =~= seq![lp[0]]);
    let pp = players_pieces(st);
    lemma_texts_two(pp[0], pp[1]);
    assert(pp =~= seq![pp[0], pp[1]]);
    assert(format_number_spec(st.players.online as int) + ("/"@ + format_number_spec(
        st.players.max as int,
    )) =~= format_number_spec(st.players.online as int) + "/"@ + format_number_spec(
        st.players.max as int,
    ));
}

/// The players row over every status: with no sample it has no child
/// lines; otherwise it lists the first sampled players, at most eight, each
/// line starting with the player's name in order, and then, when more
/// players are online than listed, one line `… N more` with N the players
/// online but not listed, its thousands separated by commas.
pub proof fn lemma_players_row(st: ServerStatus, profiles: Seq<(String, Option<PlayerProfile>)>)
    ensures
        ({
            let sh = players_shape(st, profiles);
            let n = st.players.sample@.len();
            let shown: int = if n < 8 { n as int } else { 8 };
            let more: int = st.players.online - shown;
            &&& n == 0 ==> sh.children.len() == 0
            &&& n > 0 ==> sh.children.len() == shown + (if more > 0 { 1int } else { 0int })
            &&& n > 0 && more > 0 ==> texts(sh.children[shown]) == "\u{2026} "@ + format_number_spec(
                more,
            ) + " more"@
            &&& n > 0 ==> forall|j: int|
                0 <= j < shown ==> (#[trigger] sh.children[j])[0].text == st.players.sample@[j].name@
        }),
{
    let sample = st.players.sample@;
    let n = sample.len();
    if n > 0 {
        let shown: nat = if n < 8 { n } else { 8 };
        lemma_sample_children_len(sample, profiles, shown);
        lemma_sample_child_names(sample, profiles, shown);
        let more: int = st.players.online - shown;
        if more > 0 {
            lemma_texts_single(piece("\u{2026} "@ + format_number_spec(more) + " more"@, dimmed_look()));
        }
    }
}

proof fn lemma_sample_child_names(
    sample: Seq<PlayerSample>,
    profiles: Seq<(String, Option<PlayerProfile>)>,
    n: nat,
)
    requires
        n <= sample.len(),
    ensures
        forall|j: int| 0 <= j < n ==> (#[trigger] sample_children(sample, profiles, n)[j])[0].text
            == sample[j].name@,
    decreases n,
{
    if n > 0 {
        lemma_sample_child_names(sample, profiles, (n - 1) as nat);
        lemma_sample_children_len(sample, profiles, (n - 1) as nat);
        let prev = sample_children(sample, profiles, (n - 1) as nat);
        assert forall|j: int| 0 <= j < n implies (#[trigger] sample_children(sample, profiles, n)[j])[0].text
            == sample[j].name@ by {
            if j < n - 1 {
                assert(sample_children(sample, profiles, n)[j] == prev[j]);
            } else {
                assert(sample_children(sample, profiles, n)[j] == player_pieces(sample[j], profiles));
            }
        }
    }
}

/// The MOTD row shows the first line of the rendered MOTD as its value and
/// every further line, in order, below it; it has no child rows.
pub proof fn lemma_motd_row(ls: Seq<Seq<char>>)
    requires
        ls.len() > 0,
    ensures
        motd_shape(ls).label == "MOTD"@,
        texts(motd_shape(ls).value) == ls[0],
        motd_shape(ls).more.len() == ls.len() - 1,
        forall|k: int| 0 < k < ls.len() ==> motd_shape(ls).more[k - 1] == #[trigger] ls[k],
        motd_shape(ls).children.len() == 0,
{
    lemma_texts_single(piece(ls[0], plain_look()));
}

/// The latency is painted green under 50 ms, yellow under 150 ms and red
/// from 150 ms on.
pub proof fn lemma_latency_hue(nanos: u128)
    ensures
        nanos < 50_000_000 ==> latency_pieces(nanos)[0].look.fg == Some(Hue::Green),
        50_000_000 <= nanos < 150_000_000 ==> latency_pieces(nanos)[0].look.fg == Some(Hue::Yellow),
        nanos >= 150_000_000 ==> latency_pieces(nanos)[0].look.fg == Some(Hue::Red),
{
}

/// `after` is `before` with rows that render `shs` added at the end.
pub open spec fn appended(before: Seq<Row>, after: Seq<Row>, shs: Seq<Shape>) -> bool {
    &&& after.len() == before.len() + shs.len()
    &&& after.take(before.len() as int) == before
    &&& realizes(shs, after.skip(before.len() as int))
}

pub proof fn lemma_realizes_concat(a: Seq<Shape>, b: Seq<Shape>, before: Seq<Row>, after: Seq<Row>)
    requires
        realizes(a, before),
        appended(before, after, b),
    ensures
        realizes(a + b, after),
{
    assert forall|i: int| 0 <= i < after.len() implies row_realizes((a + b)[i], #[trigger] after[i]) by {
        if i < before.len() {
            assert(after[i] == after.take(before.len() as int)[i]);
        } else {
            assert(after[i] == after.skip(before.len() as int)[i - before.len()]);
        }
    }
}

pub proof fn lemma_realizes_push(shapes: Seq<Shape>, rows: Seq<Row>, sh: Shape, r: Row)
    requires
        realizes(shapes, rows),
        row_realizes(sh, r),
    ensures
        realizes(shapes.push(sh), rows.push(r)),
{
    assert forall|i: int| 0 <= i < rows.push(r).len() implies row_realizes(
        shapes.push(sh)[i],
        #[trigger] rows.push(r)[i],
    ) by {
        if i < rows.len() {
            assert(rows.push(r)[i] == rows[i]);
            assert(shapes.push(sh)[i] == shapes[i]);
        }
    }
}

} // verus!

verus! {

fn fg_paint(h: Hue) -> (res: Look)
    ensures
        res.spec() == fg_look(h),
{
    let l = Look::fg(h);
    proof {
        assert(l.spec() =~= fg_look(h));
    }
    l
}

fn bold_paint(h: Hue) -> (res: Look)
    ensures
        res.spec() == bold_look(h),
{
    let l = Look::fg(h).with(Effect::Bold);
    proof {
        assert(l.spec() =~= bold_look(h));
    }
    l
}

fn dimmed_paint() -> (res: Look)
    ensures
        res.spec() == dimmed_look(),
{
    let l = Look::plain().with(Effect::Dimmed);
    proof {
        assert(l.spec() =~= dimmed_look());
    }
    l
}

/// One text painted with one look.
fn single(text: &str, l: &Look) -> (res: String)
    ensures
        renders(seq![piece(text@, l.spec())], res@),
{
    let mut c = Canvas::new();
    c.paint(text, l);
    proof {
        assert(c.pieces() =~~= seq![piece(text@, l.spec())]);
    }
    c.finish()
}

fn version_value(st: &ServerStatus) -> (res: String)
    ensures
        renders(version_pieces(*st), res@),
{
    let mut c = Canvas::new();
    c.paint(st.version.name.as_str(), &bold_paint(Hue::White));
    c.raw(" ");
    let mut p = chars_of("(");
    let d = decimal_i64(st.version.protocol as i64);
    push_chars(&mut p, &d);
    push_str(&mut p, ")");
    c.paint_chars(&p, &fg_paint(gray()));
    proof {
        assert(c.pieces() =~~= version_pieces(*st));
    }
    c.finish()
}

fn latency_value(nanos: u128) -> (res: String)
    ensures
        renders(latency_pieces(nanos), res@),
{
    let ms = nanos / 1_000_000;
    let mut text = decimal_u128(ms);
    push_str(&mut text, "ms");
    let h = if ms < 50 {
        Hue::Green
    } else if ms < 150 {
        Hue::Yellow
    } else {
        Hue::Red
    };
    let mut c = Canvas::new();
    c.paint_chars(&text, &bold_paint(h));
    proof {
        assert(c.pieces() =~~= latency_pieces(nanos));
    }
    c.finish()
}

fn players_value(st: &ServerStatus) -> (res: String)
    ensures
        renders(players_pieces(*st), res@),
{
    let mut c = Canvas::new();
    let online = format_number(st.players.online);
    c.paint(online.as_str(), &bold_paint(Hue::White));
    let mut rest = chars_of("/");
    let max = format_number(st.players.max);
    push_str(&mut rest, max.as_str());
    c.raw_chars(&rest);
    proof {
        assert(c.pieces() =~~= players_pieces(*st));
    }
    c.finish()
}

fn find_profile_of<'a>(profiles: &'a [(String, Option<PlayerProfile>)], name: &String) -> (res: Option<
    &'a Option<PlayerProfile>,
>)
    ensures
        match find_profile(profiles@, name@, 0) {
            Some(p) => res == Some(&p),
            None => res is None,
        },
{
    let mut k: usize = 0;
    while k < profiles.len()
        invariant
            k <= profiles@.len(),
            find_profile(profiles@, name@, 0) == find_profile(profiles@, name@, k as nat),
        decreases profiles@.len() - k,
    {
        if profiles[k].0 == *name {
            return Some(&profiles[k].1);
        }
        k += 1;
    }
    None
}

fn player_line(player: &PlayerSample, profiles: &[(String, Option<PlayerProfile>)]) -> (res: String)
    ensures
        renders(player_pieces(*player, profiles@), res@),
{
    let mut c = Canvas::new();
    c.paint(player.name.as_str(), &fg_paint(accent()));
    let found = find_profile_of(profiles, &player.name);
    if let Some(Some(profile)) = found {
        if profile.skin_url.is_some() || profile.cape_url.is_some() {
            let mut extras = chars_of("[");
            if profile.skin_url.is_some() && profile.cape_url.is_some() {
                push_str(&mut extras, "skin");
                push_str(&mut extras, ", ");
                push_str(&mut extras, "cape");
            } else if profile.skin_url.is_some() {
                push_str(&mut extras, "skin");
            } else {
                push_str(&mut extras, "cape");
            }
            push_str(&mut extras, "]");
            c.raw(" ");
            c.paint_chars(&extras, &fg_paint(gray()));
        }
    }
    proof {
        assert(c.pieces() =~~= player_pieces(*player, profiles@));
    }
    c.finish()
}

fn more_line(remaining: i32) -> (res: String)
    ensures
        renders(more_pieces(remaining as int), res@),
{
    let mut text = chars_of("\u{2026} ");
    let n = format_number(remaining);
    push_str(&mut text, n.as_str());
    push_str(&mut text, " more");
    let mut c = Canvas::new();
    c.paint_chars(&text, &dimmed_paint());
    proof {
        assert(c.pieces() =~~= more_pieces(remaining as int));
    }
    c.finish()
}

fn favicon_value(f: &String) -> (res: String)
    ensures
        renders(
            seq![
                piece(
                    "64\u{d7}64 embedded (~"@ + dec(favicon_data_len(f@)) + " bytes)"@,
                    dimmed_look(),
                ),
            ],
            res@,
        ),
{
    let b = f.as_str().as_bytes();
    let data_len = match crate::text::find_byte_in(b, 44) {
        Some(i) => {
            proof {
                crate::text::lemma_find_byte_bound(b@, 44);
            }
            b.len() - i - 1
        },
        None => b.len(),
    };
    let mut text = chars_of("64\u{d7}64 embedded (~");
    let d = decimal_u128(data_len as u128);
    push_chars(&mut text, &d);
    push_str(&mut text, " bytes)");
    let mut c = Canvas::new();
    c.paint_chars(&text, &dimmed_paint());
    proof {
        assert(c.pieces() =~~= seq![
            piece("64\u{d7}64 embedded (~"@ + dec(favicon_data_len(f@)) + " bytes)"@, dimmed_look()),
        ]);
    }
    c.finish()
}

} // verus!

verus! {

/// Add one row to the tree: `final(tree)` has one row more, which renders `sh`.
pub open spec fn added(before: Seq<Row>, after: Seq<Row>, sh: Shape) -> bool {
    after.len() == before.len() + 1 && after.drop_last() == before && row_realizes(sh, after.last())
}

fn add_simple(tree: &mut Tree, label: &str, value: String, Ghost(pieces): Ghost<Seq<Piece>>)
    requires
        renders(pieces, value@),
    ensures
        added(old(tree).rows(), final(tree).rows(), shape(label@, pieces, seq![])),
{
    let ghost r = row(label@, value@, seq![]);
    tree.add(label.to_owned(), value);
    proof {
        assert(tree.rows().drop_last() =~= old(tree).rows());
    }
}

fn add_players_row(tree: &mut Tree, status: &ServerStatus, profiles: &[(String, Option<PlayerProfile>)])
    ensures
        added(old(tree).rows(), final(tree).rows(), players_shape(*status, profiles@)),
{
    let players_str = players_value(status);
    let sample = &status.players.sample;
    if sample.len() == 0 {
        add_simple(tree, "Players", players_str, Ghost(players_pieces(*status)));
        return ;
    }
    let max_show: usize = 8;
    let shown = if sample.len() < max_show {
        sample.len()
    } else {
        max_show
    };
    let mut children: Vec<(String, String)> = Vec::new();
    let mut k: usize = 0;
    while k < shown
        invariant
            k <= shown,
            shown <= sample@.len(),
            children@.len() == k,
            forall|j: int|
                0 <= j < k ==> (#[trigger] children@[j]).0@ == Seq::<char>::empty() && renders(
                    sample_children(sample@, profiles@, k as nat)[j],
                    children@[j].1@,
                ),
        decreases shown - k,
    {
        let line = player_line(&sample[k], profiles);
        let ghost before = children@;
        children.push((String::new(), line));
        proof {
            lemma_sample_children_len(sample@, profiles@, k as nat);
            assert(sample_children(sample@, profiles@, (k + 1) as nat) == sample_children(
                sample@,
                profiles@,
                k as nat,
            ).push(player_pieces(sample@[k as int], profiles@)));
            assert forall|j: int| 0 <= j < k + 1 implies (#[trigger] children@[j]).0@ == Seq::<
                char,
            >::empty() && renders(
                sample_children(sample@, profiles@, (k + 1) as nat)[j],
                children@[j].1@,
            ) by {
                if j < k {
                    assert(children@[j] == before[j]);
                }
            }
        }
        k += 1;
    }
    let ghost kids = sample_children(sample@, profiles@, shown as nat);
    let ghost wanted = players_children(sample@, profiles@, status.players.online as int);
    proof {
        lemma_sample_children_len(sample@, profiles@, shown as nat);
    }
    let remaining: i64 = status.players.online as i64 - shown as i64;
    if remaining > 0 {
        let more = more_line(remaining as i32);
        let ghost before = children@;
        children.push((String::new(), more));
        proof {
            assert(wanted =~~= kids.push(more_pieces(remaining as int)));
            assert forall|j: int| 0 <= j < children@.len() implies (#[trigger] children@[j]).0@
                == Seq::<char>::empty() && renders(wanted[j], children@[j].1@) by {
                if j < k {
                    assert(children@[j] == before[j]);
                }
            }
        }
    } else {
        proof {
            assert(wanted =~~= kids);
        }
    }
    let ghost r = row("Players"@, players_str@, children@.map_values(|c: (String, String)| (c.0@, c.1@)));
    tree.add_with_children("Players".to_owned(), players_str, children);
    proof {
        assert(tree.rows().drop_last() =~= old(tree).rows());
        assert forall|j: int| 0 <= j < r.children.len() implies (#[trigger] r.children[j]).0
            == Seq::<char>::empty() && renders(players_shape(*status, profiles@).children[j], r.children[j].1) by {
            assert(r.children[j] == (children@[j].0@, children@[j].1@));
        }
        assert(row_realizes(players_shape(*status, profiles@), r));
    }
}

fn add_motd_row(tree: &mut Tree, lines: &Vec<String>, Ghost(ls): Ghost<Seq<Seq<char>>>)
    requires
        lines@.map_values(|l: String| l@) == ls,
        ls.len() > 0,
    ensures
        added(old(tree).rows(), final(tree).rows(), motd_shape(ls)),
{
    let first = lines[0].clone();
    proof {
        assert(first@ == ls[0]);
        crate::style::lemma_single_plain(first@);
    }
    let mut rest: Vec<String> = Vec::new();
    let mut k: usize = 1;
    while k < lines.len()
        invariant
            1 <= k <= lines@.len(),
            lines@.map_values(|l: String| l@) == ls,
            rest@.map_values(|l: String| l@) == ls.skip(1).take(k - 1),
        decreases lines@.len() - k,
    {
        let l = lines[k].clone();
        let ghost before = rest@;
        rest.push(l);
        proof {
            assert(ls[k as int] == lines@[k as int]@);
            assert(rest@ == before.push(lines@[k as int]));
            assert(rest@.map_values(|l: String| l@) =~= before.map_values(|l: String| l@).push(ls[k as int]));
            assert(ls.skip(1).take(k as int) =~= ls.skip(1).take(k - 1).push(ls[k as int]));
        }
        k += 1;
    }
    let ghost sh = motd_shape(ls);
    let ghost r = row_continued("MOTD"@, first@, rest@.map_values(|l: String| l@));
    proof {
        assert(ls.skip(1).take(ls.len() - 1) =~= ls.skip(1));
    }
    tree.add_continued("MOTD".to_owned(), first, rest);
    proof {
        assert(tree.rows().drop_last() =~= old(tree).rows());
        assert(r.children =~= Seq::<(Seq<char>, Seq<char>)>::empty());
        assert(row_realizes(sh, r));
    }
}

proof fn lemma_appended_start(rows: Seq<Row>)
    ensures
        appended(rows, rows, Seq::<Shape>::empty()),
{
    assert(rows.take(rows.len() as int) =~= rows);
    assert(rows.skip(rows.len() as int) =~= Seq::<Row>::empty());
}

proof fn lemma_appended_step(before: Seq<Row>, mid: Seq<Row>, after: Seq<Row>, shs: Seq<Shape>, sh: Shape)
    requires
        appended(before, mid, shs),
        added(mid, after, sh),
    ensures
        appended(before, after, shs.push(sh)),
{
    let n = before.len() as int;
    assert(after.drop_last() == mid);
    assert(after.take(n) =~= mid.take(n));
    let tail = after.skip(n);
    assert(tail =~= mid.skip(n).push(after.last()));
    lemma_realizes_push(shs, mid.skip(n), sh, after.last());
}

fn add_head(tree: &mut Tree, info: &ServerInfo, profiles: &[(String, Option<PlayerProfile>)])
    ensures
        appended(old(tree).rows(), final(tree).rows(), head_shapes(*info, profiles@)),
{
    let status = &info.status;
    let ghost start = tree.rows();
    let ghost mut shapes: Seq<Shape> = seq![];
    proof {
        lemma_appended_start(start);
    }
    let ghost mut prev = tree.rows();
    let v = version_value(status);
    add_simple(tree, "Version", v, Ghost(version_pieces(*status)));
    proof {
        let sh = shape("Version"@, version_pieces(*status), seq![]);
        lemma_appended_step(start, prev, tree.rows(), shapes, sh);
        shapes = shapes.push(sh);
        prev = tree.rows();
    }
    if info.latency_nanos > 0 {
        let lv = latency_value(info.latency_nanos);
        add_simple(tree, "Latency", lv, Ghost(latency_pieces(info.latency_nanos)));
        proof {
            let sh = shape("Latency"@, latency_pieces(info.latency_nanos), seq![]);
            lemma_appended_step(start, prev, tree.rows(), shapes, sh);
            shapes = shapes.push(sh);
            prev = tree.rows();
        }
    }
    add_players_row(tree, status, profiles);
    proof {
        let sh = players_shape(*status, profiles@);
        lemma_appended_step(start, prev, tree.rows(), shapes, sh);
        shapes = shapes.push(sh);
        reveal(head_shapes);
        assert(shapes =~~= head_shapes(*info, profiles@));
    }
}

fn add_flags(tree: &mut Tree, info: &ServerInfo)
    ensures
        appended(old(tree).rows(), final(tree).rows(), flag_shapes(*info)),
{
    let status = &info.status;
    let ghost start = tree.rows();
    let ghost mut shapes: Seq<Shape> = seq![];
    proof {
        lemma_appended_start(start);
    }
    let ghost mut prev = tree.rows();
    if let Some(enforced) = status.enforces_secure_chat {
        let ghost pieces = if enforced {
            seq![piece("enforced"@, fg_look(Hue::Green))]
        } else {
            seq![piece("not enforced"@, fg_look(Hue::Red))]
        };
        let val = if enforced {
            single("enforced", &fg_paint(Hue::Green))
        } else {
            single("not enforced", &fg_paint(Hue::Red))
        };
        add_simple(tree, "Secure", val, Ghost(pieces));
        proof {
            let sh = shape("Secure"@, pieces, seq![]);
            lemma_appended_step(start, prev, tree.rows(), shapes, sh);
            shapes = shapes.push(sh);
            prev = tree.rows();
        }
    }
    let ghost s1 = shapes;
    if let Some(previews) = status.previews_chat {
        let ghost pieces = if previews {
            seq![piece("enabled"@, fg_look(Hue::Green))]
        } else {
            seq![piece("disabled"@, fg_look(gray()))]
        };
        let val = if previews {
            single("enabled", &fg_paint(Hue::Green))
        } else {
            single("disabled", &fg_paint(gray()))
        };
        add_simple(tree, "Preview", val, Ghost(pieces));
        proof {
            let sh = shape("Preview"@, pieces, seq![]);
            lemma_appended_step(start, prev, tree.rows(), shapes, sh);
            shapes = shapes.push(sh);
            prev = tree.rows();
        }
    }
    let ghost s2 = shapes;
    if let Some(is_blocked) = info.blocked {
        let ghost pieces = if is_blocked {
            seq![piece("Yes"@, bold_look(Hue::Red))]
        } else {
            seq![piece("no"@, fg_look(Hue::Green))]
        };
        let val = if is_blocked {
            single("Yes", &bold_paint(Hue::Red))
        } else {
            single("no", &fg_paint(Hue::Green))
        };
        add_simple(tree, "Blocked", val, Ghost(pieces));
        proof {
            let sh = shape("Blocked"@, pieces, seq![]);
            lemma_appended_step(start, prev, tree.rows(), shapes, sh);
            shapes = shapes.push(sh);
            prev = tree.rows();
        }
    }
    let ghost s3 = shapes;
    if let Some(favicon) = &status.favicon {
        let ghost pieces = seq![
            piece(
                "64\u{d7}64 embedded (~"@ + dec(favicon_data_len(favicon@)) + " bytes)"@,
                dimmed_look(),
            ),
        ];
        let val = favicon_value(favicon);
        add_simple(tree, "Favicon", val, Ghost(pieces));
        proof {
            let sh = shape("Favicon"@, pieces, seq![]);
            lemma_appended_step(start, prev, tree.rows(), shapes, sh);
            shapes = shapes.push(sh);
            prev = tree.rows();
        }
    }
    let ghost s4 = shapes;
    if status.forge_data.is_some() || status.mod_info.is_some() {
        let ghost pieces = seq![piece("Forge/modded server detected"@, fg_look(crate::style::info()))];
        let val = single("Forge/modded server detected", &fg_paint(crate::style::info()));
        add_simple(tree, "Mods", val, Ghost(pieces));
        proof {
            let sh = shape("Mods"@, pieces, seq![]);
            lemma_appended_step(start, prev, tree.rows(), shapes, sh);
            shapes = shapes.push(sh);
            prev = tree.rows();
        }
    }
    proof {
        reveal(flag_shapes);
        assert(shapes =~~= flag_shapes(*info));
    }
}

/// The status report as a styled tree whose labels are padded to ten
/// characters: version, latency (when measured), players (with up to eight
/// sampled players and a count of those online but not listed), MOTD lines,
/// secure chat, chat preview, block status, favicon size and mod detection,
/// each when known.
pub fn render_status(info: &ServerInfo, profiles: &[(String, Option<PlayerProfile>)]) -> (res: String)
    ensures
        exists|motd: Seq<char>, rows: Seq<Row>|
            description_output(info.status.description, motd) && realizes(
                status_shapes(*info, profiles@, motd),
                rows,
            ) && renders(tree_pieces(rows, 10), res@),
{
    let mut tree = Tree::new();
    let ghost r0 = tree.rows();
    proof {
        assert(realizes(Seq::<Shape>::empty(), r0));
    }
    add_head(&mut tree, info, profiles);
    let ghost r1 = tree.rows();
    proof {
        lemma_realizes_concat(Seq::empty(), head_shapes(*info, profiles@), r0, r1);
        assert(Seq::<Shape>::empty() + head_shapes(*info, profiles@) =~= head_shapes(*info, profiles@));
    }
    let motd_rendered = render_motd(&info.status.description);
    let lines = split_lines(motd_rendered.as_str());
    let ghost ls = text_lines(motd_rendered@);
    if lines.len() > 0 {
        add_motd_row(&mut tree, &lines, Ghost(ls));
        proof {
            lemma_appended_start(r1);
            lemma_appended_step(r1, r1, tree.rows(), Seq::empty(), motd_shape(ls));
            assert(Seq::<Shape>::empty().push(motd_shape(ls)) =~= motd_shapes(motd_rendered@)) by {
                reveal(motd_shapes);
            }
        }
    } else {
        proof {
            lemma_appended_start(r1);
            assert(Seq::<Shape>::empty() =~= motd_shapes(motd_rendered@)) by {
                reveal(motd_shapes);
            }
        }
    }
    let ghost r2 = tree.rows();
    proof {
        lemma_realizes_concat(head_shapes(*info, profiles@), motd_shapes(motd_rendered@), r1, r2);
    }
    add_flags(&mut tree, info);
    proof {
        lemma_realizes_concat(
            head_shapes(*info, profiles@) + motd_shapes(motd_rendered@),
            flag_shapes(*info),
            r2,
            tree.rows(),
        );
    }
    let ghost rows = tree.rows();
    let out = tree.render(10);
    proof {
        assert(description_output(info.status.description, motd_rendered@));
        assert(realizes(status_shapes(*info, profiles@, motd_rendered@), rows));
        assert(renders(tree_pieces(rows, 10), out@));
    }
    out
}

} // verus!
