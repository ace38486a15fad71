use crate::style::{gray, look, piece, plain_look, renders, subtle, Canvas, Look, LookSpec, Piece};
use crate::style::strip::{
    lemma_pieces_plain_concat, lemma_renders_strip, lemma_texts_concat, lemma_texts_single,
    no_escape, pieces_plain, strip_escapes, texts,
};
use crate::text::{repeat, repeat_char};
use vstd::prelude::*;

verus! {

/// Builds a styled tree output, handling indentation and branch characters.
pub struct Tree {
    lines: Vec<TreeLine>,
}

struct TreeLine {
    label: String,
    value: String,
    more: Vec<String>,
    children: Vec<TreeLine>,
}

/// The view of one row of a tree: its label, its value, the further lines
/// of its value, and its children's labels and values.
pub struct Row {
    pub label: Seq<char>,
    pub value: Seq<char>,
    pub more: Seq<Seq<char>>,
    pub children: Seq<(Seq<char>, Seq<char>)>,
}

/// A row whose value has one line.
pub open spec fn row(label: Seq<char>, value: Seq<char>, children: Seq<(Seq<char>, Seq<char>)>) -> Row {
    Row { label, value, more: seq![], children }
}

/// A row without children whose value goes on over the lines `more`.
pub open spec fn row_continued(label: Seq<char>, value: Seq<char>, more: Seq<Seq<char>>) -> Row {
    Row { label, value, more, children: seq![] }
}

impl TreeLine {
    spec fn view_row(self) -> Row {
        Row {
            label: self.label@,
            value: self.value@,
            more: self.more@.map_values(|m: String| m@),
            children: self.children@.map_values(|c: TreeLine| (c.label@, c.value@)),
        }
    }
}

/// The branch drawn before a row.
pub open spec fn branch(last: bool) -> Seq<char> {
    if last {
        seq!['\u{2570}', '\u{2500}']
    } else {
        seq!['\u{251c}', '\u{2500}']
    }
}

/// What continues a row's branch down past its children.
pub open spec fn continuation(last: bool) -> Seq<char> {
    if last {
        seq![' ', ' ']
    } else {
        seq!['\u{2502}', ' ']
    }
}

pub open spec fn subtle_look() -> LookSpec {
    look(Some(subtle()), seq![])
}

pub open spec fn label_look() -> LookSpec {
    look(Some(gray()), seq![])
}

/// The spaces that pad a label of `len` characters to `width`: none when
/// the label is already that wide.
pub open spec fn pad_width(width: nat, len: nat) -> nat {
    if len < width {
        (width - len) as nat
    } else {
        0
    }
}

/// ` ├─ label`, the label padded with spaces to `width` characters, then
/// ` value` and a new line; the branch and label painted.
pub open spec fn line_pieces(label: Seq<char>, value: Seq<char>, last: bool, width: nat) -> Seq<Piece> {
    seq![
        piece(seq![' '], plain_look()),
        piece(branch(last), subtle_look()),
        piece(seq![' '], plain_look()),
        piece(label, label_look()),
        piece(repeat(' ', pad_width(width, label.len())) + seq![' '] + value + seq!['\n'], plain_look()),
    ]
}

/// The space between a child's label and its value: none when the label is
/// empty.
pub open spec fn label_gap(label: Seq<char>) -> Seq<char> {
    if label.len() == 0 {
        seq![]
    } else {
        seq![' ']
    }
}

/// ` │  ├─ label value` and a new line, for a child row; a child without a
/// label shows ` │  ├─ value`.
pub open spec fn child_pieces(
    label: Seq<char>,
    value: Seq<char>,
    parent_last: bool,
    last: bool,
) -> Seq<Piece> {
    seq![
        piece(seq![' '], plain_look()),
        piece(continuation(parent_last), subtle_look()),
        piece(seq![' ', ' '], plain_look()),
        piece(branch(last), subtle_look()),
        piece(seq![' '], plain_look()),
        piece(label, label_look()),
        piece(label_gap(label) + value + seq!['\n'], plain_look()),
    ]
}

/// Where a row's value starts, counted from after the continuation drawn
/// below the row's branch: past the label padded to `width` and a space.
pub open spec fn value_indent(label: Seq<char>, width: nat) -> nat {
    2 + label.len() + pad_width(width, label.len())
}

/// ` │` then the further line of a value, starting in the value's column,
/// and a new line.
pub open spec fn more_line_pieces(line: Seq<char>, last: bool, indent: nat) -> Seq<Piece> {
    seq![
        piece(seq![' '], plain_look()),
        piece(continuation(last), subtle_look()),
        piece(repeat(' ', indent) + line + seq!['\n'], plain_look()),
    ]
}

/// The pieces of the first `n` further lines of a row's value.
pub open spec fn more_pieces(more: Seq<Seq<char>>, n: nat, last: bool, indent: nat) -> Seq<Piece>
    decreases n,
{
    if n == 0 {
        seq![]
    } else {
        more_pieces(more, (n - 1) as nat, last, indent) + more_line_pieces(more[n - 1], last, indent)
    }
}

/// The pieces of the first `n` children of a row.
pub open spec fn children_pieces(
    children: Seq<(Seq<char>, Seq<char>)>,
    n: nat,
    parent_last: bool,
) -> Seq<Piece>
    decreases n,
{
    if n == 0 {
        seq![]
    } else {
        let j = (n - 1) as int;
        children_pieces(children, (n - 1) as nat, parent_last) + child_pieces(
            children[j].0,
            children[j].1,
            parent_last,
            j == children.len() - 1,
        )
    }
}

/// The pieces of the first `n` rows of a tree whose labels are padded to `width`.
pub open spec fn rows_pieces(rows: Seq<Row>, n: nat, width: nat) -> Seq<Piece>
    decreases n,
{
    if n == 0 {
        seq![]
    } else {
        let i = (n - 1) as int;
        let last = i == rows.len() - 1;
        rows_pieces(rows, (n - 1) as nat, width) + line_pieces(rows[i].label, rows[i].value, last, width)
            + more_pieces(rows[i].more, rows[i].more.len(), last, value_indent(rows[i].label, width))
            + children_pieces(rows[i].children, rows[i].children.len(), last)
    }
}

/// The pieces of a whole tree whose labels are padded to `width`.
pub open spec fn tree_pieces(rows: Seq<Row>, width: nat) -> Seq<Piece> {
    rows_pieces(rows, rows.len(), width)
}

// ── The text a tree shows ────────────────────────────

/// The text of a row's line: branch, label padded to `width`, value.
pub open spec fn line_text(label: Seq<char>, value: Seq<char>, last: bool, width: nat) -> Seq<char> {
    seq![' '] + branch(last) + seq![' '] + label + repeat(' ', pad_width(width, label.len())) + seq![
        ' ',
    ] + value + seq!['\n']
}

/// The text of a child's line.
pub open spec fn child_text(label: Seq<char>, value: Seq<char>, parent_last: bool, last: bool) -> Seq<
    char,
> {
    seq![' '] + continuation(parent_last) + seq![' ', ' '] + branch(last) + seq![' '] + label
        + label_gap(label) + value + seq!['\n']
}

/// The text of a further line of a value.
pub open spec fn more_text(line: Seq<char>, last: bool, indent: nat) -> Seq<char> {
    seq![' '] + continuation(last) + repeat(' ', indent) + line + seq!['\n']
}

/// The text of the first `n` further lines of a row's value.
pub open spec fn more_lines_text(more: Seq<Seq<char>>, n: nat, last: bool, indent: nat) -> Seq<char>
    decreases n,
{
    if n == 0 {
        seq![]
    } else {
        more_lines_text(more, (n - 1) as nat, last, indent) + more_text(more[n - 1], last, indent)
    }
}

/// The text of the first `n` children of a row.
pub open spec fn children_text(children: Seq<(Seq<char>, Seq<char>)>, n: nat, parent_last: bool) -> Seq<
    char,
>
    decreases n,
{
    if n == 0 {
        seq![]
    } else {
        let j = (n - 1) as int;
        children_text(children, (n - 1) as nat, parent_last) + child_text(
            children[j].0,
            children[j].1,
            parent_last,
            j == children.len() - 1,
        )
    }
}

/// The text of the first `n` rows of a tree: each row's line, the further
/// lines of its value, then its children's lines.
pub open spec fn rows_text(rows: Seq<Row>, n: nat, width: nat) -> Seq<char>
    decreases n,
{
    if n == 0 {
        seq![]
    } else {
        let i = (n - 1) as int;
        let last = i == rows.len() - 1;
        rows_text(rows, (n - 1) as nat, width) + line_text(rows[i].label, rows[i].value, last, width)
            + more_lines_text(rows[i].more, rows[i].more.len(), last, value_indent(rows[i].label, width))
            + children_text(rows[i].children, rows[i].children.len(), last)
    }
}

/// A label and value free of escape characters.
pub open spec fn pair_plain(c: (Seq<char>, Seq<char>)) -> bool {
    no_escape(c.0) && no_escape(c.1)
}

/// A row whose label, value and children are free of escape characters.
pub open spec fn row_plain(r: Row) -> bool {
    &&& no_escape(r.label)
    &&& no_escape(r.value)
    &&& forall|k: int| 0 <= k < r.more.len() ==> no_escape(#[trigger] r.more[k])
    &&& forall|j: int| 0 <= j < r.children.len() ==> pair_plain(#[trigger] r.children[j])
}

/// Rows free of escape characters.
pub open spec fn rows_plain(rows: Seq<Row>) -> bool {
    forall|i: int| 0 <= i < rows.len() ==> row_plain(#[trigger] rows[i])
}

proof fn lemma_texts_line(ps: Seq<Piece>)
    requires
        ps.len() >= 1,
    ensures
        texts(ps) == texts(ps.drop_last()) + ps.last().text,
{
    assert(ps =~= ps.drop_last() + seq![ps.last()]);
    lemma_texts_concat(ps.drop_last(), seq![ps.last()]);
    lemma_texts_single(ps.last());
}

proof fn lemma_line_texts(label: Seq<char>, value: Seq<char>, last: bool, width: nat)
    ensures
        texts(line_pieces(label, value, last, width)) == line_text(label, value, last, width),
{
    let ps = line_pieces(label, value, last, width);
    lemma_texts_line(ps);
    lemma_texts_line(ps.drop_last());
    lemma_texts_line(ps.drop_last().drop_last());
    lemma_texts_line(ps.drop_last().drop_last().drop_last());
    lemma_texts_line(ps.drop_last().drop_last().drop_last().drop_last());
    assert(ps.drop_last().drop_last().drop_last().drop_last().drop_last() =~= Seq::<Piece>::empty());
    assert(Seq::<Piece>::empty().map_values(|q: Piece| q.text) =~= Seq::<Seq<char>>::empty());
    assert(texts(line_pieces(label, value, last, width)) =~= line_text(label, value, last, width));
}

proof fn lemma_child_texts(label: Seq<char>, value: Seq<char>, parent_last: bool, last: bool)
    ensures
        texts(child_pieces(label, value, parent_last, last)) == child_text(label, value, parent_last, last),
{
    let ps = child_pieces(label, value, parent_last, last);
    lemma_texts_line(ps);
    lemma_texts_line(ps.drop_last());
    lemma_texts_line(ps.drop_last().drop_last());
    lemma_texts_line(ps.drop_last().drop_last().drop_last());
    lemma_texts_line(ps.drop_last().drop_last().drop_last().drop_last());
    lemma_texts_line(ps.drop_last().drop_last().drop_last().drop_last().drop_last());
    lemma_texts_line(ps.drop_last().drop_last().drop_last().drop_last().drop_last().drop_last());
    assert(ps.drop_last().drop_last().drop_last().drop_last().drop_last().drop_last().drop_last()
        =~= Seq::<Piece>::empty());
    assert(Seq::<Piece>::empty().map_values(|q: Piece| q.text) =~= Seq::<Seq<char>>::empty());
    assert(texts(ps) =~= child_text(label, value, parent_last, last));
}

proof fn lemma_line_plain(label: Seq<char>, value: Seq<char>, last: bool, width: nat)
    requires
        no_escape(label),
        no_escape(value),
    ensures
        pieces_plain(line_pieces(label, value, last, width)),
{
    let ps = line_pieces(label, value, last, width);
    let tail = repeat(' ', pad_width(width, label.len())) + seq![' '] + value + seq!['\n'];
    assert(no_escape(tail)) by {
        let r = repeat(' ', pad_width(width, label.len()));
        assert forall|k: int| 0 <= k < tail.len() implies #[trigger] tail[k] != '\x1b' by {
            if k < r.len() {
                assert(tail[k] == r[k]);
            } else if k == r.len() {
            } else if k < r.len() + 1 + value.len() {
                assert(tail[k] == value[k - r.len() - 1]);
            }
        }
    }
    assert forall|i: int| 0 <= i < ps.len() implies no_escape(#[trigger] ps[i].text) by {
        if i == 1 {
            assert(no_escape(branch(last)));
        }
    }
}

proof fn lemma_child_plain(label: Seq<char>, value: Seq<char>, parent_last: bool, last: bool)
    requires
        no_escape(label),
        no_escape(value),
    ensures
        pieces_plain(child_pieces(label, value, parent_last, last)),
{
    let ps = child_pieces(label, value, parent_last, last);
    let gap = label_gap(label);
    let tail = gap + value + seq!['\n'];
    assert(no_escape(tail)) by {
        assert forall|k: int| 0 <= k < tail.len() implies #[trigger] tail[k] != '\x1b' by {
            if k < gap.len() {
                assert(tail[k] == gap[k]);
            } else if k < gap.len() + value.len() {
                assert(tail[k] == value[k - gap.len()]);
            }
        }
    }
    assert forall|i: int| 0 <= i < ps.len() implies no_escape(#[trigger] ps[i].text) by {
        if i == 1 {
            assert(no_escape(continuation(parent_last)));
        }
        if i == 3 {
            assert(no_escape(branch(last)));
        }
    }
}

proof fn lemma_children_text(children: Seq<(Seq<char>, Seq<char>)>, n: nat, parent_last: bool)
    requires
        n <= children.len(),
        forall|j: int| 0 <= j < children.len() ==> pair_plain(#[trigger] children[j]),
    ensures
        texts(children_pieces(children, n, parent_last)) == children_text(children, n, parent_last),
        pieces_plain(children_pieces(children, n, parent_last)),
    decreases n,
{
    if n == 0 {
        assert(Seq::<Piece>::empty().map_values(|q: Piece| q.text) =~= Seq::<Seq<char>>::empty());
    } else {
        let j = (n - 1) as int;
        lemma_children_text(children, (n - 1) as nat, parent_last);
        assert(pair_plain(children[j]));
        let last = j == children.len() - 1;
        lemma_child_texts(children[j].0, children[j].1, parent_last, last);
        lemma_child_plain(children[j].0, children[j].1, parent_last, last);
        lemma_texts_concat(
            children_pieces(children, (n - 1) as nat, parent_last),
            child_pieces(children[j].0, children[j].1, parent_last, last),
        );
        lemma_pieces_plain_concat(
            children_pieces(children, (n - 1) as nat, parent_last),
            child_pieces(children[j].0, children[j].1, parent_last, last),
        );
    }
}

proof fn lemma_more_lines(more: Seq<Seq<char>>, n: nat, last: bool, indent: nat)
    requires
        n <= more.len(),
        forall|k: int| 0 <= k < more.len() ==> no_escape(#[trigger] more[k]),
    ensures
        texts(more_pieces(more, n, last, indent)) == more_lines_text(more, n, last, indent),
        pieces_plain(more_pieces(more, n, last, indent)),
    decreases n,
{
    if n == 0 {
        assert(Seq::<Piece>::empty().map_values(|q: Piece| q.text) =~= Seq::<Seq<char>>::empty());
    } else {
        let k = n - 1;
        lemma_more_lines(more, (n - 1) as nat, last, indent);
        let line = more[k];
        assert(no_escape(line));
        let ps = more_line_pieces(line, last, indent);
        lemma_texts_line(ps);
        lemma_texts_line(ps.drop_last());
        lemma_texts_line(ps.drop_last().drop_last());
        assert(ps.drop_last().drop_last().drop_last() =~= Seq::<Piece>::empty());
        assert(Seq::<Piece>::empty().map_values(|q: Piece| q.text) =~= Seq::<Seq<char>>::empty());
        assert(texts(ps) =~= more_text(line, last, indent));
        let tail = repeat(' ', indent) + line + seq!['\n'];
        assert(no_escape(tail)) by {
            assert forall|j: int| 0 <= j < tail.len() implies #[trigger] tail[j] != '\x1b' by {
                if indent <= j < indent + line.len() {
                    assert(tail[j] == line[j - indent]);
                }
            }
        }
        assert(pieces_plain(ps)) by {
            assert forall|i: int| 0 <= i < ps.len() implies no_escape(#[trigger] ps[i].text) by {
                if i == 1 {
                    assert(no_escape(continuation(last)));
                }
            }
        }
        lemma_texts_concat(more_pieces(more, (n - 1) as nat, last, indent), ps);
        lemma_pieces_plain_concat(more_pieces(more, (n - 1) as nat, last, indent), ps);
    }
}

proof fn lemma_rows_text(rows: Seq<Row>, n: nat, width: nat)
    requires
        n <= rows.len(),
        rows_plain(rows),
    ensures
        texts(rows_pieces(rows, n, width)) == rows_text(rows, n, width),
        pieces_plain(rows_pieces(rows, n, width)),
    decreases n,
{
    if n == 0 {
        assert(Seq::<Piece>::empty().map_values(|q: Piece| q.text) =~= Seq::<Seq<char>>::empty());
    } else {
        let i = (n - 1) as int;
        let last = i == rows.len() - 1;
        let r = rows[i];
        lemma_rows_text(rows, (n - 1) as nat, width);
        assert(row_plain(r));
        lemma_line_texts(r.label, r.value, last, width);
        lemma_line_plain(r.label, r.value, last, width);
        lemma_children_text(r.children, r.children.len(), last);
        let ind = value_indent(r.label, width);
        lemma_more_lines(r.more, r.more.len(), last, ind);
        let a = rows_pieces(rows, (n - 1) as nat, width);
        let b = line_pieces(r.label, r.value, last, width);
        let m = more_pieces(r.more, r.more.len(), last, ind);
        let c = children_pieces(r.children, r.children.len(), last);
        lemma_texts_concat(a, b);
        lemma_texts_concat(a + b, m);
        lemma_texts_concat(a + b + m, c);
        lemma_pieces_plain_concat(a, b);
        lemma_pieces_plain_concat(a + b, m);
        lemma_pieces_plain_concat(a + b + m, c);
    }
}

/// Adding a row with an empty list of children adds the same row as adding
/// it without children; since `render` depends on the rows alone, the tree
/// renders the same.
pub proof fn lemma_empty_children_row(label: Seq<char>, value: Seq<char>, children: Seq<(String, String)>)
    requires
        children.len() == 0,
    ensures
        row(label, value, children.map_values(|c: (String, String)| (c.0@, c.1@))) == row(
            label,
            value,
            seq![],
        ),
{
    assert(children.map_values(|c: (String, String)| (c.0@, c.1@)) =~= Seq::<(Seq<char>, Seq<char>)>::empty());
}

/// Whatever the terminal's color support, a rendered tree whose labels and
/// values hold no escape character shows, its escapes stripped, the lines of
/// its rows in order: each row's branch, its label padded with spaces to
/// `width` characters, a space and its value, the further lines of its value
/// starting in the same column, then the lines of its children. A label no wider than `width` is padded to exactly `width`, so
/// the values of such rows start in one column.
pub proof fn lemma_tree_stripped(rows: Seq<Row>, width: nat, out: Seq<char>)
    requires
        rows_plain(rows),
        renders(tree_pieces(rows, width), out),
    ensures
        strip_escapes(out) == rows_text(rows, rows.len(), width),
        forall|l: Seq<char>|
            l.len() <= width ==> (#[trigger] (l + repeat(' ', pad_width(width, l.len())))).len() == width,
{
    lemma_rows_text(rows, rows.len(), width);
    lemma_renders_strip(tree_pieces(rows, width), out);
}

fn subtle_paint() -> (res: Look)
    ensures
        res.spec() == subtle_look(),
{
    let l = Look::fg(subtle());
    proof {
        assert(l.spec() =~= subtle_look());
    }
    l
}

fn label_paint() -> (res: Look)
    ensures
        res.spec() == label_look(),
{
    let l = Look::fg(gray());
    proof {
        assert(l.spec() =~= label_look());
    }
    l
}

fn branch_of(last: bool) -> (res: &'static str)
    ensures
        res@ == branch(last),
{
    proof {
        reveal_strlit("\u{2570}\u{2500}");
        reveal_strlit("\u{251c}\u{2500}");
    }
    if last {
        "\u{2570}\u{2500}"
    } else {
        "\u{251c}\u{2500}"
    }
}

fn continuation_of(last: bool) -> (res: &'static str)
    ensures
        res@ == continuation(last),
{
    proof {
        reveal_strlit("  ");
        reveal_strlit("\u{2502} ");
    }
    if last {
        "  "
    } else {
        "\u{2502} "
    }
}

/// `pad` spaces, then ` ` + value + new line.
fn spaced_line(pad: usize, value: &String) -> (res: Vec<char>)
    ensures
        res@ == repeat(' ', pad as nat) + seq![' '] + value@ + seq!['\n'],
{
    let mut v: Vec<char> = repeat_char(' ', pad);
    v.push(' ');
    crate::text::push_str(&mut v, value.as_str());
    v.push('\n');
    v
}

/// The end of a child's line: a space when it has a label, its value and a
/// new line.
fn child_tail(label: &String, value: &String) -> (res: Vec<char>)
    ensures
        res@ == label_gap(label@) + value@ + seq!['\n'],
{
    let mut v: Vec<char> = Vec::new();
    if crate::text::chars_of(label.as_str()).len() > 0 {
        v.push(' ');
    }
    crate::text::push_str(&mut v, value.as_str());
    v.push('\n');
    proof {
        assert(v@ =~= label_gap(label@) + value@ + seq!['\n']);
    }
    v
}

/// The end of a further line of a value: spaces to the value's column (two,
/// then as many as the label and its padding), the line, a new line.
fn more_tail(len: usize, pad: usize, line: &String) -> (res: Vec<char>)
    ensures
        res@ == repeat(' ', (2 + len + pad) as nat) + line@ + seq!['\n'],
{
    let mut v: Vec<char> = repeat_char(' ', 2);
    let a = repeat_char(' ', len);
    crate::text::push_chars(&mut v, &a);
    let b = repeat_char(' ', pad);
    crate::text::push_chars(&mut v, &b);
    crate::text::push_str(&mut v, line.as_str());
    v.push('\n');
    proof {
        assert(repeat(' ', 2) + repeat(' ', len as nat) + repeat(' ', pad as nat) =~= repeat(' ', (2 + len + pad) as nat));
        assert(v@ =~= repeat(' ', (2 + len + pad) as nat) + line@ + seq!['\n']);
    }
    v
}

impl Tree {
    /// The rows added so far, in order.
    pub closed spec fn rows(self) -> Seq<Row> {
        self.lines@.map_values(|l: TreeLine| l.view_row())
    }

    pub fn new() -> (res: Self)
        ensures
            res.rows() == Seq::<Row>::empty(),
    {
        let t = Tree { lines: Vec::new() };
        proof {
            assert(t.rows() =~= Seq::<Row>::empty());
        }
        t
    }

    pub fn add(&mut self, label: String, value: String)
        ensures
            final(self).rows() == old(self).rows().push(row(label@, value@, seq![])),
    {
        let line = TreeLine { label, value, more: Vec::new(), children: Vec::new() };
        proof {
            assert(line.view_row().children =~= Seq::<(Seq<char>, Seq<char>)>::empty());
            assert(line.view_row().more =~= Seq::<Seq<char>>::empty());
        }
        self.lines.push(line);
        proof {
            assert(self.rows() =~= old(self).rows().push(line.view_row()));
        }
    }

    pub fn add_with_children(&mut self, label: String, value: String, children: Vec<(String, String)>)
        ensures
            final(self).rows() == old(self).rows().push(
                row(label@, value@, children@.map_values(|c: (String, String)| (c.0@, c.1@))),
            ),
    {
        let mut kids: Vec<TreeLine> = Vec::new();
        let mut i: usize = 0;
        while i < children.len()
            invariant
                i <= children@.len(),
                kids@.len() == i,
                forall|j: int|
                    0 <= j < i ==> (#[trigger] kids@[j]).label@ == children@[j].0@ && kids@[j].value@
                        == children@[j].1@,
            decreases children@.len() - i,
        {
            let l = children[i].0.clone();
            let v = children[i].1.clone();
            kids.push(TreeLine { label: l, value: v, more: Vec::new(), children: Vec::new() });
            i += 1;
        }
        let line = TreeLine { label, value, more: Vec::new(), children: kids };
        proof {
            assert(line.view_row().children =~= children@.map_values(
                |c: (String, String)| (c.0@, c.1@),
            ));
            assert(line.view_row().more =~= Seq::<Seq<char>>::empty());
        }
        self.lines.push(line);
        proof {
            assert(self.rows() =~= old(self).rows().push(line.view_row()));
        }
    }

    /// Add a row whose value goes on over further lines, each shown below
    /// the row in the column where the value starts.
    pub fn add_continued(&mut self, label: String, value: String, more: Vec<String>)
        ensures
            final(self).rows() == old(self).rows().push(
                row_continued(label@, value@, more@.map_values(|m: String| m@)),
            ),
    {
        let line = TreeLine { label, value, more, children: Vec::new() };
        proof {
            assert(line.view_row().children =~= Seq::<(Seq<char>, Seq<char>)>::empty());
        }
        self.lines.push(line);
        proof {
            assert(self.rows() =~= old(self).rows().push(line.view_row()));
        }
    }

    /// Render the tree to a string with ANSI styling, each top-level label
    /// padded with spaces to `indent` characters so that the values line up.
    pub fn render(&self, indent: usize) -> (res: String)
        ensures
            renders(tree_pieces(self.rows(), indent as nat), res@),
    {
        let mut canvas = Canvas::new();
        let total = self.lines.len();
        let sub = subtle_paint();
        let lab = label_paint();
        let ghost rows = self.rows();
        let mut i: usize = 0;
        while i < total
            invariant
                total == self.lines@.len(),
                rows == self.rows(),
                rows.len() == total,
                i <= total,
                sub.spec() == subtle_look(),
                lab.spec() == label_look(),
                canvas.pieces() == rows_pieces(rows, i as nat, indent as nat),
            decreases total - i,
        {
            let line = &self.lines[i];
            let is_last = i == total - 1;
            assert(rows[i as int] == line.view_row());
            canvas.raw(" ");
            canvas.paint(branch_of(is_last), &sub);
            canvas.raw(" ");
            canvas.paint(line.label.as_str(), &lab);
            let len = crate::text::chars_of(line.label.as_str()).len();
            let pad = if len < indent {
                indent - len
            } else {
                0
            };
            let tail = spaced_line(pad, &line.value);
            canvas.raw_chars(&tail);
            proof {
                reveal_strlit(" ");
                assert(canvas.pieces() =~~= rows_pieces(rows, i as nat, indent as nat) + line_pieces(
                    rows[i as int].label,
                    rows[i as int].value,
                    is_last,
                    indent as nat,
                ) + more_pieces(rows[i as int].more, 0, is_last, value_indent(rows[i as int].label, indent as nat)));
            }
            let cont = continuation_of(is_last);
            let ghost ind = value_indent(rows[i as int].label, indent as nat);
            let ghost head = rows_pieces(rows, i as nat, indent as nat) + line_pieces(
                rows[i as int].label,
                rows[i as int].value,
                is_last,
                indent as nat,
            );
            let nmore = line.more.len();
            let mut k: usize = 0;
            while k < nmore
                invariant
                    nmore == line.more@.len(),
                    rows[i as int] == line.view_row(),
                    k <= nmore,
                    len == line.label@.len(),
                    pad == pad_width(indent as nat, len as nat),
                    ind == value_indent(line.label@, indent as nat),
                    cont@ == continuation(is_last),
                    sub.spec() == subtle_look(),
                    canvas.pieces() == head + more_pieces(rows[i as int].more, k as nat, is_last, ind),
                decreases nmore - k,
            {
                let ghost before = canvas.pieces();
                assert(rows[i as int].more[k as int] == line.more@[k as int]@);
                canvas.raw(" ");
                canvas.paint(cont, &sub);
                let tail = more_tail(len, pad, &line.more[k]);
                canvas.raw_chars(&tail);
                proof {
                    reveal_strlit(" ");
                    assert(canvas.pieces() =~~= before + more_line_pieces(line.more@[k as int]@, is_last, ind));
                }
                k += 1;
            }
            proof {
                assert(canvas.pieces() =~~= head + more_pieces(rows[i as int].more, rows[i as int].more.len(), is_last, ind) + children_pieces(rows[i as int].children, 0, is_last));
            }
            let nkids = line.children.len();
            let mut j: usize = 0;
            while j < nkids
                invariant
                    nkids == line.children@.len(),
                    rows[i as int] == line.view_row(),
                    j <= nkids,
                    cont@ == continuation(is_last),
                    sub.spec() == subtle_look(),
                    lab.spec() == label_look(),
                    canvas.pieces() == head + more_pieces(rows[i as int].more, rows[i as int].more.len(), is_last, ind) + children_pieces(rows[i as int].children, j as nat, is_last),
                decreases nkids - j,
            {
                let child = &line.children[j];
                let child_last = j == nkids - 1;
                assert(rows[i as int].children[j as int] == (child.label@, child.value@));
                let ghost before = canvas.pieces();
                canvas.raw(" ");
                canvas.paint(cont, &sub);
                canvas.raw("  ");
                canvas.paint(branch_of(child_last), &sub);
                canvas.raw(" ");
                canvas.paint(child.label.as_str(), &lab);
                let tail = child_tail(&child.label, &child.value);
                canvas.raw_chars(&tail);
                proof {
                    reveal_strlit(" ");
                    reveal_strlit("  ");
                    assert(canvas.pieces() =~~= before + child_pieces(
                        child.label@,
                        child.value@,
                        is_last,
                        child_last,
                    ));
                }
                j += 1;
            }
            i += 1;
        }
        canvas.finish()
    }
}

impl Default for Tree {
    fn default() -> (res: Self)
        ensures
            res.rows() == Seq::<Row>::empty(),
    {
        Self::new()
    }
}

} // verus!
