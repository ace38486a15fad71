use crate::style::{look, piece, plain_look, renders, subtle, Canvas, Effect, Hue, Look, LookSpec, Piece};
use crate::style::concat;
use crate::style::strip::{
    lemma_pieces_plain_concat, lemma_renders_strip, lemma_texts_concat, lemma_texts_single,
    no_escape, pieces_plain, strip_escapes, texts,
};
use crate::text::{chars_of, repeat, repeat_char};
use vstd::prelude::*;

verus! {

/// A simple rounded-corner Unicode box table renderer.
pub struct Table {
    headers: Vec<String>,
    rows: Vec<Vec<String>>,
}

/// How many characters of `s` show on a terminal, starting inside an escape
/// sequence or not: an escape runs from `ESC` to the next ASCII letter.
pub open spec fn visible_from(s: Seq<char>, in_escape: bool) -> nat
    decreases s.len(),
{
    if s.len() == 0 {
        0
    } else if in_escape {
        visible_from(s.skip(1), !(('a' <= s[0] <= 'z') || ('A' <= s[0] <= 'Z')))
    } else if s[0] == '\x1b' {
        visible_from(s.skip(1), true)
    } else {
        1 + visible_from(s.skip(1), false)
    }
}

pub open spec fn visible(s: Seq<char>) -> nat {
    visible_from(s, false)
}

proof fn lemma_visible_bound(s: Seq<char>, e: bool)
    ensures
        visible_from(s, e) <= s.len(),
    decreases s.len(),
{
    if s.len() > 0 {
        lemma_visible_bound(s.skip(1), true);
        lemma_visible_bound(s.skip(1), false);
    }
}

/// Estimate visible length ignoring ANSI escape codes.
pub fn visible_len(s: &str) -> (res: usize)
    ensures
        res == visible(s@),
{
    let chars = chars_of(s);
    let mut len: usize = 0;
    let mut in_escape = false;
    let mut i: usize = 0;
    proof {
        assert(chars@.skip(0) =~= chars@);
    }
    while i < chars.len()
        invariant
            i <= chars@.len(),
            chars@ == s@,
            len <= i,
            len + visible_from(chars@.skip(i as int), in_escape) == visible(s@),
        decreases chars@.len() - i,
    {
        let ch = chars[i];
        assert(chars@.skip(i as int).skip(1) =~= chars@.skip(i + 1));
        if in_escape {
            if ('a' <= ch && ch <= 'z') || ('A' <= ch && ch <= 'Z') {
                in_escape = false;
            }
        } else if ch == '\x1b' {
            in_escape = true;
        } else {
            len += 1;
        }
        i += 1;
    }
    len
}

/// The widest visible text of column `col` among the first `n` rows.
pub open spec fn rows_max(rows: Seq<Seq<Seq<char>>>, col: int, n: nat) -> nat
    decreases n,
{
    if n == 0 {
        0
    } else {
        let prev = rows_max(rows, col, (n - 1) as nat);
        let here = if col < rows[n - 1].len() {
            visible(rows[n - 1][col])
        } else {
            0
        };
        if prev >= here {
            prev
        } else {
            here
        }
    }
}

/// The width of column `col`: its widest visible text, plus a space each side.
pub open spec fn col_width(headers: Seq<Seq<char>>, rows: Seq<Seq<Seq<char>>>, col: int) -> nat {
    let h = visible(headers[col]);
    let r = rows_max(rows, col, rows.len());
    (if h >= r {
        h
    } else {
        r
    }) + 2
}

pub open spec fn column_widths(headers: Seq<Seq<char>>, rows: Seq<Seq<Seq<char>>>) -> Seq<nat> {
    Seq::new(headers.len(), |i: int| col_width(headers, rows, i))
}

pub open spec fn border_look() -> LookSpec {
    look(Some(subtle()), seq![])
}

/// The first `n` cells of a border line.
pub open spec fn border_cells(mid: Seq<char>, widths: Seq<nat>, n: nat) -> Seq<Piece>
    decreases n,
{
    if n == 0 {
        seq![]
    } else {
        let i = n - 1;
        border_cells(mid, widths, (n - 1) as nat) + seq![piece(repeat('\u{2500}', widths[i]), border_look())]
            + if i < widths.len() - 1 {
            seq![piece(mid, border_look())]
        } else {
            seq![]
        }
    }
}

/// A border line: corners and joints painted, a new line at the end.
pub open spec fn border_pieces(left: Seq<char>, mid: Seq<char>, right: Seq<char>, widths: Seq<nat>) -> Seq<
    Piece,
> {
    seq![piece(left, border_look())] + border_cells(mid, widths, widths.len()) + seq![
        piece(right, border_look()),
        piece(seq!['\n'], plain_look()),
    ]
}

/// The text shown in cell `i` of a line: the cell, or nothing past its end.
pub open spec fn cell_text(cells: Seq<Seq<char>>, i: int) -> Seq<char> {
    if i < cells.len() {
        cells[i]
    } else {
        seq![]
    }
}

/// Spaces that fill a cell of width `w` after its text and the space before it.
pub open spec fn padding(w: nat, vis: nat) -> nat {
    if w > vis + 1 {
        (w - vis - 1) as nat
    } else {
        0
    }
}

pub open spec fn header_look() -> LookSpec {
    look(Some(Hue::White), seq![Effect::Bold])
}

/// The first `n` cells of a data line.
pub open spec fn data_cells(cells: Seq<Seq<char>>, widths: Seq<nat>, is_header: bool, n: nat) -> Seq<
    Piece,
>
    decreases n,
{
    if n == 0 {
        seq![]
    } else {
        let i = n - 1;
        let text = cell_text(cells, i);
        data_cells(cells, widths, is_header, (n - 1) as nat) + seq![
            piece(seq![' '], plain_look()),
            piece(
                text,
                if is_header {
                    header_look()
                } else {
                    plain_look()
                },
            ),
            piece(repeat(' ', padding(widths[i], visible(text))), plain_look()),
            piece(seq!['\u{2502}'], border_look()),
        ]
    }
}

/// A data line: `│`, each cell padded to its width and closed by `│`, a new line.
pub open spec fn data_pieces(cells: Seq<Seq<char>>, widths: Seq<nat>, is_header: bool) -> Seq<Piece> {
    seq![piece(seq!['\u{2502}'], border_look())] + data_cells(cells, widths, is_header, widths.len())
        + seq![piece(seq!['\n'], plain_look())]
}

/// The data lines of the first `n` rows.
pub open spec fn rows_pieces(rows: Seq<Seq<Seq<char>>>, widths: Seq<nat>, n: nat) -> Seq<Piece>
    decreases n,
{
    if n == 0 {
        seq![]
    } else {
        rows_pieces(rows, widths, (n - 1) as nat) + data_pieces(rows[n - 1], widths, false)
    }
}

/// The whole table: top border, header line, separator, one line per row,
/// bottom border.
pub open spec fn table_pieces(headers: Seq<Seq<char>>, rows: Seq<Seq<Seq<char>>>) -> Seq<Piece> {
    let w = column_widths(headers, rows);
    border_pieces(seq!['\u{256d}'], seq!['\u{252c}'], seq!['\u{256e}'], w) + data_pieces(headers, w, true)
        + border_pieces(seq!['\u{251c}'], seq!['\u{253c}'], seq!['\u{2524}'], w) + rows_pieces(
        rows,
        w,
        rows.len(),
    ) + border_pieces(seq!['\u{2570}'], seq!['\u{2534}'], seq!['\u{256f}'], w)
}

pub open spec fn nat_widths(w: Seq<usize>) -> Seq<nat> {
    w.map_values(|x: usize| x as nat)
}

proof fn lemma_rows_max_bound(rows: Seq<Seq<Seq<char>>>, col: int, n: nat, bound: nat)
    requires
        0 <= col,
        n <= rows.len(),
        forall|r: int, c: int|
            0 <= r < rows.len() && 0 <= c < rows[r].len() ==> #[trigger] rows[r][c].len() <= bound,
    ensures
        rows_max(rows, col, n) <= bound,
    decreases n,
{
    if n > 0 {
        let i = n - 1;
        lemma_rows_max_bound(rows, col, (n - 1) as nat, bound);
        if 0 <= col < rows[i].len() {
            assert(rows[i][col].len() <= bound);
            lemma_visible_bound(rows[i][col], false);
        }
    }
}

// ── The lines a table shows ──────────────────────────

/// The sum of the first `n` widths.
pub open spec fn width_sum(widths: Seq<nat>, n: nat) -> nat
    decreases n,
{
    if n == 0 {
        0
    } else {
        width_sum(widths, (n - 1) as nat) + widths[n - 1]
    }
}

/// The length of every line of a table with these column widths, its new
/// line included: a border character per column and one more, and the
/// columns' widths.
pub open spec fn line_len(widths: Seq<nat>) -> nat {
    width_sum(widths, widths.len()) + widths.len() + 2
}

/// The text of each line of a table, in order: top border, header line,
/// separator, one line per row, bottom border.
pub open spec fn table_lines(headers: Seq<Seq<char>>, rows: Seq<Seq<Seq<char>>>) -> Seq<Seq<char>> {
    let w = column_widths(headers, rows);
    seq![
        texts(border_pieces(seq!['\u{256d}'], seq!['\u{252c}'], seq!['\u{256e}'], w)),
        texts(data_pieces(headers, w, true)),
        texts(border_pieces(seq!['\u{251c}'], seq!['\u{253c}'], seq!['\u{2524}'], w)),
    ] + row_lines(rows, w, rows.len()) + seq![
        texts(border_pieces(seq!['\u{2570}'], seq!['\u{2534}'], seq!['\u{256f}'], w)),
    ]
}

/// The text of the lines of the first `n` rows.
pub open spec fn row_lines(rows: Seq<Seq<Seq<char>>>, widths: Seq<nat>, n: nat) -> Seq<Seq<char>> {
    Seq::new(n, |r: int| texts(data_pieces(rows[r], widths, false)))
}

proof fn lemma_concat_append(x: Seq<Seq<char>>, y: Seq<Seq<char>>)
    ensures
        concat(x + y) == concat(x) + concat(y),
    decreases y.len(),
{
    if y.len() == 0 {
        assert(x + y =~= x);
        assert(concat(x) + Seq::<char>::empty() =~= concat(x));
    } else {
        lemma_concat_append(x, y.drop_last());
        assert((x + y).drop_last() =~= x + y.drop_last());
        assert((x + y).last() == y.last());
        assert(concat(x) + concat(y.drop_last()) + y.last() =~= concat(x) + (concat(y.drop_last())
            + y.last()));
    }
}

proof fn lemma_concat_single(a: Seq<char>)
    ensures
        concat(seq![a]) == a,
{
    let one: Seq<Seq<char>> = seq![a];
    assert(one.drop_last() =~= Seq::<Seq<char>>::empty());
    assert(concat(one.drop_last()) == Seq::<char>::empty());
    assert(Seq::<char>::empty() + a =~= a);
}

proof fn lemma_texts_empty()
    ensures
        texts(Seq::<Piece>::empty()) == Seq::<char>::empty(),
{
    assert(Seq::<Piece>::empty().map_values(|q: Piece| q.text) =~= Seq::<Seq<char>>::empty());
}

proof fn lemma_plain_single(p: Piece)
    requires
        no_escape(p.text),
    ensures
        pieces_plain(seq![p]),
{
}

proof fn lemma_repeat_plain(c: char, n: nat)
    requires
        c != '\x1b',
    ensures
        no_escape(repeat(c, n)),
        repeat(c, n).len() == n,
{
}

proof fn lemma_border_cells(mid: Seq<char>, w: Seq<nat>, n: nat)
    requires
        mid.len() == 1,
        no_escape(mid),
        n <= w.len(),
    ensures
        texts(border_cells(mid, w, n)).len() == width_sum(w, n) + if n < w.len() {
            n
        } else if n > 0 {
            (n - 1) as nat
        } else {
            0
        },
        pieces_plain(border_cells(mid, w, n)),
    decreases n,
{
    if n == 0 {
        lemma_texts_empty();
    } else {
        let i = n - 1;
        lemma_border_cells(mid, w, (n - 1) as nat);
        let a = border_cells(mid, w, (n - 1) as nat);
        let dash = piece(repeat('\u{2500}', w[i]), border_look());
        let b: Seq<Piece> = seq![dash];
        let c: Seq<Piece> = if i < w.len() - 1 {
            seq![piece(mid, border_look())]
        } else {
            seq![]
        };
        lemma_repeat_plain('\u{2500}', w[i]);
        lemma_texts_single(dash);
        lemma_plain_single(dash);
        if i < w.len() - 1 {
            lemma_texts_single(piece(mid, border_look()));
            lemma_plain_single(piece(mid, border_look()));
        } else {
            lemma_texts_empty();
        }
        lemma_texts_concat(a, b);
        lemma_texts_concat(a + b, c);
        lemma_pieces_plain_concat(a, b);
        lemma_pieces_plain_concat(a + b, c);
    }
}

proof fn lemma_border_line(left: Seq<char>, mid: Seq<char>, right: Seq<char>, w: Seq<nat>)
    requires
        left.len() == 1 && mid.len() == 1 && right.len() == 1,
        no_escape(left) && no_escape(mid) && no_escape(right),
        w.len() >= 1,
    ensures
        texts(border_pieces(left, mid, right, w)).len() == line_len(w),
        texts(border_pieces(left, mid, right, w)).last() == '\n',
        pieces_plain(border_pieces(left, mid, right, w)),
{
    let l = piece(left, border_look());
    let r = piece(right, border_look());
    let nl = piece(seq!['\n'], plain_look());
    let cells = border_cells(mid, w, w.len());
    lemma_border_cells(mid, w, w.len());
    assert(border_pieces(left, mid, right, w) =~= seq![l] + cells + seq![r] + seq![nl]);
    lemma_texts_single(l);
    lemma_texts_single(r);
    lemma_texts_single(nl);
    lemma_plain_single(l);
    lemma_plain_single(r);
    lemma_plain_single(nl);
    lemma_texts_concat(seq![l], cells);
    lemma_texts_concat(seq![l] + cells, seq![r]);
    lemma_texts_concat(seq![l] + cells + seq![r], seq![nl]);
    lemma_pieces_plain_concat(seq![l], cells);
    lemma_pieces_plain_concat(seq![l] + cells, seq![r]);
    lemma_pieces_plain_concat(seq![l] + cells + seq![r], seq![nl]);
}

proof fn lemma_visible_plain(s: Seq<char>)
    requires
        no_escape(s),
    ensures
        visible(s) == s.len(),
    decreases s.len(),
{
    if s.len() > 0 {
        assert(s[0] != '\x1b');
        assert(no_escape(s.skip(1))) by {
            assert forall|k: int| 0 <= k < s.skip(1).len() implies #[trigger] s.skip(1)[k]
                != '\x1b' by {
                assert(s.skip(1)[k] == s[k + 1]);
            }
        }
        lemma_visible_plain(s.skip(1));
    }
}

/// Cells that fit their columns: each is free of escape characters and at
/// least two characters narrower than its column.
pub open spec fn cells_fit(cells: Seq<Seq<char>>, w: Seq<nat>) -> bool {
    forall|i: int|
        0 <= i < w.len() ==> no_escape(#[trigger] cell_text(cells, i)) && cell_text(cells, i).len() + 2
            <= w[i]
}

proof fn lemma_data_cells(cells: Seq<Seq<char>>, w: Seq<nat>, is_header: bool, n: nat)
    requires
        n <= w.len(),
        cells_fit(cells, w),
    ensures
        texts(data_cells(cells, w, is_header, n)).len() == width_sum(w, n) + n,
        pieces_plain(data_cells(cells, w, is_header, n)),
    decreases n,
{
    if n == 0 {
        lemma_texts_empty();
    } else {
        let i = n - 1;
        lemma_data_cells(cells, w, is_header, (n - 1) as nat);
        let text = cell_text(cells, i);
        assert(no_escape(text) && text.len() + 2 <= w[i]);
        lemma_visible_plain(text);
        let a = data_cells(cells, w, is_header, (n - 1) as nat);
        let p0 = piece(seq![' '], plain_look());
        let p1 = piece(
            text,
            if is_header {
                header_look()
            } else {
                plain_look()
            },
        );
        let p2 = piece(repeat(' ', padding(w[i], visible(text))), plain_look());
        let p3 = piece(seq!['\u{2502}'], border_look());
        lemma_repeat_plain(' ', padding(w[i], visible(text)));
        assert(data_cells(cells, w, is_header, n) =~= a + seq![p0] + seq![p1] + seq![p2] + seq![p3]);
        lemma_texts_single(p0);
        lemma_texts_single(p1);
        lemma_texts_single(p2);
        lemma_texts_single(p3);
        lemma_plain_single(p0);
        lemma_plain_single(p1);
        lemma_plain_single(p2);
        lemma_plain_single(p3);
        lemma_texts_concat(a, seq![p0]);
        lemma_texts_concat(a + seq![p0], seq![p1]);
        lemma_texts_concat(a + seq![p0] + seq![p1], seq![p2]);
        lemma_texts_concat(a + seq![p0] + seq![p1] + seq![p2], seq![p3]);
        lemma_pieces_plain_concat(a, seq![p0]);
        lemma_pieces_plain_concat(a + seq![p0], seq![p1]);
        lemma_pieces_plain_concat(a + seq![p0] + seq![p1], seq![p2]);
        lemma_pieces_plain_concat(a + seq![p0] + seq![p1] + seq![p2], seq![p3]);
    }
}

proof fn lemma_data_line(cells: Seq<Seq<char>>, w: Seq<nat>, is_header: bool)
    requires
        cells_fit(cells, w),
    ensures
        texts(data_pieces(cells, w, is_header)).len() == line_len(w),
        texts(data_pieces(cells, w, is_header)).last() == '\n',
        pieces_plain(data_pieces(cells, w, is_header)),
{
    let l = piece(seq!['\u{2502}'], border_look());
    let nl = piece(seq!['\n'], plain_look());
    let mid = data_cells(cells, w, is_header, w.len());
    lemma_data_cells(cells, w, is_header, w.len());
    lemma_texts_single(l);
    lemma_texts_single(nl);
    lemma_plain_single(l);
    lemma_plain_single(nl);
    lemma_texts_concat(seq![l], mid);
    lemma_texts_concat(seq![l] + mid, seq![nl]);
    lemma_pieces_plain_concat(seq![l], mid);
    lemma_pieces_plain_concat(seq![l] + mid, seq![nl]);
}

proof fn lemma_rows_max_ge(rows: Seq<Seq<Seq<char>>>, col: int, n: nat, r: int)
    requires
        0 <= r < n <= rows.len(),
        0 <= col < rows[r].len(),
    ensures
        visible(rows[r][col]) <= rows_max(rows, col, n),
    decreases n,
{
    if r < n - 1 {
        lemma_rows_max_ge(rows, col, (n - 1) as nat, r);
    }
}

proof fn lemma_rows_text(rows: Seq<Seq<Seq<char>>>, w: Seq<nat>, n: nat)
    requires
        n <= rows.len(),
        forall|r: int| 0 <= r < rows.len() ==> cells_fit(#[trigger] rows[r], w),
    ensures
        texts(rows_pieces(rows, w, n)) == concat(row_lines(rows, w, n)),
        pieces_plain(rows_pieces(rows, w, n)),
    decreases n,
{
    if n == 0 {
        lemma_texts_empty();
        assert(row_lines(rows, w, 0) =~= Seq::<Seq<char>>::empty());
    } else {
        lemma_rows_text(rows, w, (n - 1) as nat);
        assert(cells_fit(rows[n - 1], w));
        lemma_data_line(rows[n - 1], w, false);
        lemma_texts_concat(rows_pieces(rows, w, (n - 1) as nat), data_pieces(rows[n - 1], w, false));
        lemma_pieces_plain_concat(rows_pieces(rows, w, (n - 1) as nat), data_pieces(rows[n - 1], w, false));
        assert(row_lines(rows, w, n).drop_last() =~= row_lines(rows, w, (n - 1) as nat));
    }
}

/// Whatever the terminal's color support, a table whose headers and cells
/// hold no escape character shows, its escapes stripped, `rows.len() + 4`
/// lines, one after the other: top border, header line, separator, one line
/// per row, bottom border. Every line ends with a new line and all have the
/// same length, so borders and cells line up; cells past the last header are
/// left out and missing cells are blank.
pub proof fn lemma_table_lines(headers: Seq<Seq<char>>, rows: Seq<Seq<Seq<char>>>, out: Seq<char>)
    requires
        headers.len() >= 1,
        forall|i: int| 0 <= i < headers.len() ==> no_escape(#[trigger] headers[i]),
        forall|r: int, c: int| 0 <= r < rows.len() && 0 <= c < rows[r].len() ==> no_escape(#[trigger] rows[r][c]),
        renders(table_pieces(headers, rows), out),
    ensures
        strip_escapes(out) == concat(table_lines(headers, rows)),
        table_lines(headers, rows).len() == rows.len() + 4,
        forall|i: int|
            0 <= i < table_lines(headers, rows).len() ==> (#[trigger] table_lines(headers, rows)[i]).len()
                == line_len(column_widths(headers, rows)) && table_lines(headers, rows)[i].last() == '\n',
{
    let w = column_widths(headers, rows);
    assert forall|i: int| 0 <= i < w.len() implies visible(headers[i]) + 2 <= #[trigger] w[i] by {}
    assert(cells_fit(headers, w)) by {
        assert forall|i: int| 0 <= i < w.len() implies no_escape(#[trigger] cell_text(headers, i))
            && cell_text(headers, i).len() + 2 <= w[i] by {
            lemma_visible_plain(headers[i]);
        }
    }
    assert forall|r: int| 0 <= r < rows.len() implies cells_fit(#[trigger] rows[r], w) by {
        assert forall|i: int| 0 <= i < w.len() implies no_escape(#[trigger] cell_text(rows[r], i))
            && cell_text(rows[r], i).len() + 2 <= w[i] by {
            if i < rows[r].len() {
                assert(no_escape(rows[r][i]));
                lemma_visible_plain(rows[r][i]);
                lemma_rows_max_ge(rows, i, rows.len(), r);
            }
        }
    }
    let top = border_pieces(seq!['\u{256d}'], seq!['\u{252c}'], seq!['\u{256e}'], w);
    let head = data_pieces(headers, w, true);
    let sep = border_pieces(seq!['\u{251c}'], seq!['\u{253c}'], seq!['\u{2524}'], w);
    let body = rows_pieces(rows, w, rows.len());
    let bottom = border_pieces(seq!['\u{2570}'], seq!['\u{2534}'], seq!['\u{256f}'], w);
    lemma_border_line(seq!['\u{256d}'], seq!['\u{252c}'], seq!['\u{256e}'], w);
    lemma_data_line(headers, w, true);
    lemma_border_line(seq!['\u{251c}'], seq!['\u{253c}'], seq!['\u{2524}'], w);
    lemma_rows_text(rows, w, rows.len());
    lemma_border_line(seq!['\u{2570}'], seq!['\u{2534}'], seq!['\u{256f}'], w);
    assert forall|r: int| 0 <= r < rows.len() implies (#[trigger] row_lines(rows, w, rows.len())[r]).len()
        == line_len(w) && row_lines(rows, w, rows.len())[r].last() == '\n' by {
        assert(cells_fit(rows[r], w));
        lemma_data_line(rows[r], w, false);
    }
    lemma_texts_concat(top, head);
    lemma_texts_concat(top + head, sep);
    lemma_texts_concat(top + head + sep, body);
    lemma_texts_concat(top + head + sep + body, bottom);
    lemma_pieces_plain_concat(top, head);
    lemma_pieces_plain_concat(top + head, sep);
    lemma_pieces_plain_concat(top + head + sep, body);
    lemma_pieces_plain_concat(top + head + sep + body, bottom);
    lemma_renders_strip(table_pieces(headers, rows), out);
    let lines = table_lines(headers, rows);
    let rl = row_lines(rows, w, rows.len());
    assert(lines =~= seq![texts(top)] + seq![texts(head)] + seq![texts(sep)] + rl + seq![texts(bottom)]);
    lemma_concat_single(texts(top));
    lemma_concat_single(texts(head));
    lemma_concat_single(texts(sep));
    lemma_concat_single(texts(bottom));
    lemma_concat_append(seq![texts(top)], seq![texts(head)]);
    lemma_concat_append(seq![texts(top)] + seq![texts(head)], seq![texts(sep)]);
    lemma_concat_append(seq![texts(top)] + seq![texts(head)] + seq![texts(sep)], rl);
    lemma_concat_append(seq![texts(top)] + seq![texts(head)] + seq![texts(sep)] + rl, seq![texts(bottom)]);
    assert forall|i: int| 0 <= i < lines.len() implies (#[trigger] lines[i]).len() == line_len(w)
        && lines[i].last() == '\n' by {
        if 3 <= i < 3 + rows.len() {
            assert(lines[i] == rl[i - 3]);
        }
    }
}

fn border_char(i: usize) -> (res: &'static str)
    requires
        i < 9,
    ensures
        res@ == seq![
            '\u{256d}',
            '\u{252c}',
            '\u{256e}',
            '\u{251c}',
            '\u{253c}',
            '\u{2524}',
            '\u{2570}',
            '\u{2534}',
            '\u{256f}',
        ].subrange(i as int, i + 1),
{
    proof {
        reveal_strlit("\u{256d}");
        reveal_strlit("\u{252c}");
        reveal_strlit("\u{256e}");
        reveal_strlit("\u{251c}");
        reveal_strlit("\u{253c}");
        reveal_strlit("\u{2524}");
        reveal_strlit("\u{2570}");
        reveal_strlit("\u{2534}");
        reveal_strlit("\u{256f}");
    }
    if i == 0 {
        "\u{256d}"
    } else if i == 1 {
        "\u{252c}"
    } else if i == 2 {
        "\u{256e}"
    } else if i == 3 {
        "\u{251c}"
    } else if i == 4 {
        "\u{253c}"
    } else if i == 5 {
        "\u{2524}"
    } else if i == 6 {
        "\u{2570}"
    } else if i == 7 {
        "\u{2534}"
    } else {
        "\u{256f}"
    }
}

fn border_paint() -> (res: Look)
    ensures
        res.spec() == border_look(),
{
    let l = Look::fg(subtle());
    proof {
        assert(l.spec() =~= border_look());
    }
    l
}

fn header_paint() -> (res: Look)
    ensures
        res.spec() == header_look(),
{
    let l = Look::fg(Hue::White).with(Effect::Bold);
    proof {
        assert(l.spec() =~= header_look());
    }
    l
}

impl Table {
    /// The header texts.
    pub closed spec fn header_texts(self) -> Seq<Seq<char>> {
        self.headers@.map_values(|h: String| h@)
    }

    /// The cell texts of each row, in order.
    pub closed spec fn row_texts(self) -> Seq<Seq<Seq<char>>> {
        self.rows@.map_values(|r: Vec<String>| r@.map_values(|c: String| c@))
    }

    pub fn new(headers: Vec<String>) -> (res: Self)
        ensures
            res.header_texts() == headers@.map_values(|h: String| h@),
            res.row_texts() == Seq::<Seq<Seq<char>>>::empty(),
    {
        let t = Table { headers, rows: Vec::new() };
        proof {
            assert(t.row_texts() =~= Seq::<Seq<Seq<char>>>::empty());
        }
        t
    }

    pub fn add_row(&mut self, row: Vec<String>)
        ensures
            final(self).header_texts() == old(self).header_texts(),
            final(self).row_texts() == old(self).row_texts().push(
                row@.map_values(|c: String| c@),
            ),
    {
        self.rows.push(row);
        proof {
            assert(self.row_texts() =~= old(self).row_texts().push(
                row@.map_values(|c: String| c@),
            ));
        }
    }

    fn border_line(&self, canvas: &mut Canvas, which: usize, widths: &Vec<usize>)
        requires
            which == 0 || which == 3 || which == 6,
        ensures
            final(canvas).pieces() == old(canvas).pieces() + border_pieces(
                seq!['\u{256d}', '\u{252c}', '\u{256e}', '\u{251c}', '\u{253c}', '\u{2524}', '\u{2570}', '\u{2534}', '\u{256f}'].subrange(which as int, which + 1),
                seq!['\u{256d}', '\u{252c}', '\u{256e}', '\u{251c}', '\u{253c}', '\u{2524}', '\u{2570}', '\u{2534}', '\u{256f}'].subrange(which + 1, which + 2),
                seq!['\u{256d}', '\u{252c}', '\u{256e}', '\u{251c}', '\u{253c}', '\u{2524}', '\u{2570}', '\u{2534}', '\u{256f}'].subrange(which + 2, which + 3),
                nat_widths(widths@),
            ),
    {
        let ghost corners = seq!['\u{256d}', '\u{252c}', '\u{256e}', '\u{251c}', '\u{253c}', '\u{2524}', '\u{2570}', '\u{2534}', '\u{256f}'];
        let left = border_char(which);
        let mid = border_char(which + 1);
        let right = border_char(which + 2);
        let sub = border_paint();
        let ghost w = nat_widths(widths@);
        let ghost start = canvas.pieces();
        proof {
            assert(left@ =~= corners.subrange(which as int, which + 1));
            assert(mid@ =~= corners.subrange(which + 1, which + 2));
            assert(right@ =~= corners.subrange(which + 2, which + 3));
        }
        canvas.paint(left, &sub);
        let mut i: usize = 0;
        while i < widths.len()
            invariant
                i <= widths@.len(),
                w == nat_widths(widths@),
                sub.spec() == border_look(),
                canvas.pieces() == start + seq![piece(left@, border_look())] + border_cells(
                    mid@,
                    w,
                    i as nat,
                ),
            decreases widths@.len() - i,
        {
            let dash = repeat_char('\u{2500}', widths[i]);
            let ghost before = canvas.pieces();
            canvas.paint_chars(&dash, &sub);
            if i < widths.len() - 1 {
                canvas.paint(mid, &sub);
            }
            proof {
                assert(canvas.pieces() =~~= before + seq![piece(repeat('\u{2500}', w[i as int]), border_look())] + if i < w.len() - 1 {
                    seq![piece(mid@, border_look())]
                } else {
                    seq![]
                });
            }
            i += 1;
        }
        canvas.paint(right, &sub);
        canvas.raw("\n");
        proof {
            reveal_strlit("\n");
            assert(canvas.pieces() =~~= start + border_pieces(left@, mid@, right@, w));
        }
    }

    fn data_line(&self, canvas: &mut Canvas, cells: &Vec<String>, widths: &Vec<usize>, is_header: bool)
        ensures
            final(canvas).pieces() == old(canvas).pieces() + data_pieces(
                cells@.map_values(|c: String| c@),
                nat_widths(widths@),
                is_header,
            ),
    {
        let sub = border_paint();
        let head = header_paint();
        let ghost w = nat_widths(widths@);
        let ghost texts = cells@.map_values(|c: String| c@);
        let ghost start = canvas.pieces();
        proof {
            reveal_strlit("\u{2502}");
        }
        canvas.paint("\u{2502}", &sub);
        proof {
            assert(canvas.pieces() =~~= start + seq![piece(seq!['\u{2502}'], border_look())]
                + data_cells(texts, w, is_header, 0));
        }
        let mut i: usize = 0;
        while i < widths.len()
            invariant
                i <= widths@.len(),
                w == nat_widths(widths@),
                texts == cells@.map_values(|c: String| c@),
                sub.spec() == border_look(),
                head.spec() == header_look(),
                canvas.pieces() == start + seq![piece(seq!['\u{2502}'], border_look())] + data_cells(
                    texts,
                    w,
                    is_header,
                    i as nat,
                ),
            decreases widths@.len() - i,
        {
            let text: &str = if i < cells.len() {
                cells[i].as_str()
            } else {
                ""
            };
            proof {
                reveal_strlit("");
                assert(text@ == cell_text(texts, i as int));
            }
            let vis_len = visible_len(text);
            let pad_len = if widths[i] > vis_len && widths[i] - vis_len > 1 {
                widths[i] - vis_len - 1
            } else {
                0
            };
            assert(pad_len == padding(w[i as int], visible(cell_text(texts, i as int))));
            let ghost before = canvas.pieces();
            let ghost look_i = if is_header {
                header_look()
            } else {
                plain_look()
            };
            canvas.raw(" ");
            let ghost p1 = canvas.pieces();
            if is_header {
                canvas.paint(text, &head);
            } else {
                canvas.raw(text);
            }
            assert(canvas.pieces() == p1.push(piece(text@, look_i)));
            let pad = repeat_char(' ', pad_len);
            canvas.raw_chars(&pad);
            canvas.paint("\u{2502}", &sub);
            proof {
                reveal_strlit(" ");
                reveal_strlit("\u{2502}");
                assert(" "@ =~= seq![' ']);
                assert("\u{2502}"@ =~= seq!['\u{2502}']);
                assert(canvas.pieces() =~~= before + seq![
                    piece(" "@, plain_look()),
                    piece(text@, look_i),
                    piece(pad@, plain_look()),
                    piece("\u{2502}"@, sub.spec()),
                ]);
                assert(canvas.pieces() =~~= before + seq![
                    piece(seq![' '], plain_look()),
                    piece(
                        cell_text(texts, i as int),
                        if is_header {
                            header_look()
                        } else {
                            plain_look()
                        },
                    ),
                    piece(repeat(' ', padding(w[i as int], visible(cell_text(texts, i as int)))), plain_look()),
                    piece(seq!['\u{2502}'], border_look()),
                ]);
            }
            i += 1;
        }
        canvas.raw("\n");
        proof {
            reveal_strlit("\n");
            assert(canvas.pieces() =~~= start + data_pieces(texts, w, is_header));
        }
    }

    pub fn render(&self) -> (res: String)
        requires
            forall|i: int|
                0 <= i < self.header_texts().len() ==> #[trigger] self.header_texts()[i].len() + 2
                    <= usize::MAX,
            forall|r: int, c: int|
                0 <= r < self.row_texts().len() && 0 <= c < self.row_texts()[r].len()
                    ==> #[trigger] self.row_texts()[r][c].len() + 2 <= usize::MAX,
        ensures
            renders(table_pieces(self.header_texts(), self.row_texts()), res@),
    {
        let ghost hs = self.header_texts();
        let ghost rs = self.row_texts();
        let cols = self.headers.len();
        let mut widths: Vec<usize> = Vec::new();
        let mut i: usize = 0;
        while i < cols
            invariant
                cols == hs.len(),
                hs == self.header_texts(),
                i <= cols,
                widths@.len() == i,
                forall|k: int| 0 <= k < i ==> #[trigger] widths@[k] == visible(hs[k]),
            decreases cols - i,
        {
            assert(hs[i as int] == self.headers@[i as int]@);
            let v = visible_len(self.headers[i].as_str());
            widths.push(v);
            i += 1;
        }
        let mut r: usize = 0;
        while r < self.rows.len()
            invariant
                cols == hs.len(),
                hs == self.header_texts(),
                rs == self.row_texts(),
                rs.len() == self.rows@.len(),
                r <= rs.len(),
                widths@.len() == cols,
                forall|k: int|
                    0 <= k < cols ==> #[trigger] widths@[k] == {
                        let h = visible(hs[k]);
                        let m = rows_max(rs, k, r as nat);
                        if h >= m {
                            h
                        } else {
                            m
                        }
                    },
            decreases rs.len() - r,
        {
            let row = &self.rows[r];
            assert(rs[r as int] == row@.map_values(|c: String| c@));
            let mut j: usize = 0;
            while j < row.len()
                invariant
                    cols == hs.len(),
                    rs == self.row_texts(),
                    r < rs.len(),
                    rs[r as int] == row@.map_values(|c: String| c@),
                    j <= row@.len(),
                    widths@.len() == cols,
                    forall|k: int|
                        0 <= k < cols ==> #[trigger] widths@[k] == {
                            let h = visible(hs[k]);
                            let m = rows_max(rs, k, if k < j { (r + 1) as nat } else { r as nat });
                            if h >= m {
                                h
                            } else {
                                m
                            }
                        },
                decreases row@.len() - j,
            {
                if j < cols {
                    let v = visible_len(row[j].as_str());
                    if v > widths[j] {
                        widths.set(j, v);
                    }
                }
                j += 1;
            }
            proof {
                assert forall|k: int| 0 <= k < cols implies rows_max(rs, k, (r + 1) as nat)
                    == rows_max(rs, k, r as nat) || k < row@.len() by {}
            }
            r += 1;
        }
        // Add padding: one space each side.
        let mut k: usize = 0;
        while k < cols
            invariant
                cols == hs.len(),
                rs == self.row_texts(),
                r == rs.len(),
                k <= cols,
                widths@.len() == cols,
                forall|q: int| 0 <= q < k ==> #[trigger] widths@[q] == col_width(hs, rs, q),
                forall|q: int|
                    k <= q < cols ==> #[trigger] widths@[q] + 2 == col_width(hs, rs, q),
                forall|q: int|
                    0 <= q < self.header_texts().len() ==> #[trigger] self.header_texts()[q].len()
                        + 2 <= usize::MAX,
                forall|q: int, c: int|
                    0 <= q < self.row_texts().len() && 0 <= c < self.row_texts()[q].len()
                        ==> #[trigger] self.row_texts()[q][c].len() + 2 <= usize::MAX,
                hs == self.header_texts(),
            decreases cols - k,
        {
            proof {
                lemma_visible_bound(hs[k as int], false);
                assert forall|r: int, c: int|
                    0 <= r < rs.len() && 0 <= c < rs[r].len() implies #[trigger] rs[r][c].len() <= (
                    usize::MAX - 2) as nat by {
                    assert(self.row_texts()[r][c].len() + 2 <= usize::MAX);
                }
                assert(hs[k as int].len() + 2 <= usize::MAX);
                lemma_rows_max_bound(rs, k as int, rs.len(), (usize::MAX - 2) as nat);
            }
            let w = widths[k];
            widths.set(k, w + 2);
            k += 1;
        }
        proof {
            assert(nat_widths(widths@) =~= column_widths(hs, rs));
        }
        let mut canvas = Canvas::new();
        self.border_line(&mut canvas, 0, &widths);
        self.data_line(&mut canvas, &self.headers, &widths, true);
        self.border_line(&mut canvas, 3, &widths);
        let ghost after_head = canvas.pieces();
        let mut r: usize = 0;
        while r < self.rows.len()
            invariant
                rs == self.row_texts(),
                r <= rs.len(),
                rs.len() == self.rows@.len(),
                canvas.pieces() == after_head + rows_pieces(rs, nat_widths(widths@), r as nat),
            decreases rs.len() - r,
        {
            assert(rs[r as int] == self.rows@[r as int]@.map_values(|c: String| c@));
            self.data_line(&mut canvas, &self.rows[r], &widths, false);
            proof {
                assert(canvas.pieces() =~~= after_head + rows_pieces(rs, nat_widths(widths@), (r + 1) as nat));
            }
            r += 1;
        }
        self.border_line(&mut canvas, 6, &widths);
        proof {
            let c = seq!['\u{256d}', '\u{252c}', '\u{256e}', '\u{251c}', '\u{253c}', '\u{2524}', '\u{2570}', '\u{2534}', '\u{256f}'];
            assert(c.subrange(0, 1) =~= seq!['\u{256d}']);
            assert(c.subrange(1, 2) =~= seq!['\u{252c}']);
            assert(c.subrange(2, 3) =~= seq!['\u{256e}']);
            assert(c.subrange(3, 4) =~= seq!['\u{251c}']);
            assert(c.subrange(4, 5) =~= seq!['\u{253c}']);
            assert(c.subrange(5, 6) =~= seq!['\u{2524}']);
            assert(c.subrange(6, 7) =~= seq!['\u{2570}']);
            assert(c.subrange(7, 8) =~= seq!['\u{2534}']);
            assert(c.subrange(8, 9) =~= seq!['\u{256f}']);
            assert(canvas.pieces() =~~= table_pieces(hs, rs));
        }
        canvas.finish()
    }
}

} // verus!
