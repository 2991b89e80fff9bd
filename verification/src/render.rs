//! The side-by-side rendering of a diff: a table per function, the target's
//! instructions on the left and ours on the right.
use vstd::prelude::*;

use crate::gutter::{branch_gutter, gutter, gutter_width, law_gutter_columns, law_gutter_is_drawn_in_strokes};
use crate::dev::{key_of, symbol_key};
use crate::num::{digits, digits_text, law_digits_tell_the_number, left_in, lemma_digits_plain};
use crate::objdiff::{
    fmt_pct, forms_agree, is_complete, opt_percent, pct_text, reaches_full, FnView, Percent, PercentFacts, Row,
    SideView,
};
use crate::style::{
    append_styled, is_plain, lemma_colors_are_escapes, lemma_concat_trims_alike, lemma_plain_concat,
    lemma_plain_trims_alike, lemma_shown_end, lemma_shows_concat, lemma_shows_plain, lemma_styled_trims_alike,
    lemma_styled_visible, lemma_visible_concat, lemma_visible_plain, paint, shows, styled, trims_alike, visible, GREEN,
    RED,
};
use crate::text::{
    append_repeated, as_lines, begins_with, joined, law_joined_lists, law_written_lines_read_back, lemma_as_lines_more,
    lemma_trim_end, lemma_trim_end_concat, lines, opt_str, repeated, same_text, texts, trim_end, trim_end_text,
    without_cr,
};

verus! {

/// Minimum width of the TARGET column. Functions whose widest target row
/// exceeds this get a wider column instead, so the separator never drifts.
pub const MIN_COL: usize = 44;

/// The color of a percentage: green at 100%, red below.
pub open spec fn pct_escape(bits: u32) -> Seq<char> {
    if is_complete(bits) {
        GREEN@
    } else {
        RED@
    }
}

/// Paints an already-formatted percentage green at 100%, red below.
pub fn paint_pct_text(text: &str, bits: u32, color: bool) -> (r: String)
    ensures
        r@ == styled(text@, pct_escape(bits), color),
{
    paint(
        text,
        if reaches_full(bits) {
            GREEN
        } else {
            RED
        },
        color,
    )
}

/// A match percentage in its color; an absent one has none.
pub open spec fn painted_pct(pct: Option<PercentFacts>, color: bool) -> Seq<char> {
    match pct {
        Some(p) => styled(p.text, pct_escape(p.bits), color),
        None => pct_text(None),
    }
}

/// A match percentage, green at 100% and red below, so a fully-matched
/// function is recognizable without reading the number.
pub fn paint_pct(pct: Option<&Percent>, color: bool) -> (r: String)
    ensures
        r@ == painted_pct(
            match pct {
                Some(p) => Some(p@),
                None => None,
            },
            color,
        ),
{
    let text = fmt_pct(pct);
    match pct {
        Some(p) => paint_pct_text(text.as_str(), p.bits, color),
        None => text,
    }
}

/// The rows of a side; an absent side has none.
pub open spec fn side_rows(side: Option<SideView>) -> Seq<Row> {
    match side {
        Some(s) => s.rows@,
        None => Seq::empty(),
    }
}

/// The match percentage of a side.
pub open spec fn side_pct(side: Option<SideView>) -> Option<PercentFacts> {
    match side {
        Some(s) => opt_percent(s.match_percent),
        None => None,
    }
}

/// The widest row's width, or `MIN_COL` where that is more.
pub open spec fn text_column(rows: Seq<Row>, n: nat) -> nat
    decreases n,
{
    if n == 0 || n > rows.len() {
        MIN_COL as nat
    } else {
        let before = text_column(rows, (n - 1) as nat);
        let width = rows[n - 1].text@.len();
        if width > before {
            width
        } else {
            before
        }
    }
}

/// How many columns the gutter of `rows` takes; none where no branches are
/// drawn.
pub open spec fn gutter_columns(rows: Seq<Row>, branches: bool) -> nat {
    if branches {
        gutter_width(rows)
    } else {
        0
    }
}

/// The width of the TARGET column: its gutter and its widest row.
pub open spec fn column(rows: Seq<Row>, branches: bool) -> nat {
    text_column(rows, rows.len()) + gutter_columns(rows, branches)
}

/// The gutter at line `i`, blank behind the last row.
pub open spec fn gutter_cell(rows: Seq<Row>, i: int, color: bool, branches: bool) -> Seq<char> {
    if branches && i < rows.len() {
        gutter(rows, color)[i]
    } else {
        repeated(' ', gutter_columns(rows, branches))
    }
}

/// What stands at line `i` of a side.
pub open spec fn cell(rows: Seq<Row>, i: int, color: bool, branches: bool) -> Seq<char> {
    if i < rows.len() {
        gutter_cell(rows, i, color, branches) + rows[i].shown(color)
    } else {
        gutter_cell(rows, i, color, branches)
    }
}

/// How much is filled up to the separator at line `i`.
pub open spec fn fill(rows: Seq<Row>, i: int) -> nat {
    if i < rows.len() && rows[i].text@.len() <= text_column(rows, rows.len()) {
        (text_column(rows, rows.len()) - rows[i].text@.len()) as nat
    } else {
        text_column(rows, rows.len())
    }
}

/// Whether line `i` differs.
pub open spec fn is_changed(left: Seq<Row>, right: Seq<Row>, i: int) -> bool {
    (i < left.len() && left[i].changed) || (i < right.len() && right[i].changed)
}

/// The mark between the columns at line `i`.
pub open spec fn mark(left: Seq<Row>, right: Seq<Row>, i: int, color: bool) -> Seq<char> {
    if is_changed(left, right, i) {
        styled("<>"@, RED@, color)
    } else {
        "  "@
    }
}

/// What stands at line `i` before it is trimmed.
pub open spec fn full_line(left: Seq<Row>, right: Seq<Row>, i: int, color: bool, branches: bool) -> Seq<char> {
    cell(left, i, color, branches) + repeated(' ', fill(left, i)) + " |"@ + mark(left, right, i, color) + "| "@ + cell(
        right,
        i,
        color,
        branches,
    )
}

/// The first `n` lines of a function's table.
pub open spec fn table_lines(left: Seq<Row>, right: Seq<Row>, n: nat, color: bool, branches: bool) -> Seq<char>
    decreases n,
{
    if n == 0 {
        Seq::empty()
    } else {
        table_lines(left, right, (n - 1) as nat, color, branches) + trim_end(
            full_line(left, right, n - 1, color, branches),
        ) + "\n"@
    }
}

/// How many lines a function's table has.
pub open spec fn line_count(left: Seq<Row>, right: Seq<Row>) -> nat {
    if left.len() >= right.len() {
        left.len()
    } else {
        right.len()
    }
}

/// The separator line that names a function and its match percentages.
pub open spec fn header(
    name: Seq<char>,
    target: Option<PercentFacts>,
    base: Option<PercentFacts>,
    color: bool,
) -> Seq<char> {
    "==== "@ + name + "  TARGET "@ + painted_pct(target, color) + "%  OURS "@ + painted_pct(base, color) + "% ====\n"@
}

/// The head of a function's table.
pub open spec fn table_head(col: nat) -> Seq<char> {
    left_in("TARGET"@, col) + " | OURS\n"@ + repeated('-', col + 6) + "\n"@
}

/// A function's table under its header.
pub open spec fn function_text(
    name: Seq<char>,
    target: Option<SideView>,
    base: Option<SideView>,
    color: bool,
    branches: bool,
) -> Seq<char> {
    let left = side_rows(target);
    let right = side_rows(base);
    header(name, side_pct(target), side_pct(base), color) + table_head(column(left, branches)) + table_lines(
        left,
        right,
        line_count(left, right),
        color,
        branches,
    )
}

fn widest(rows: &Vec<Row>) -> (r: usize)
    ensures
        r == text_column(rows@, rows@.len()),
{
    let n = rows.len();
    let mut col: usize = MIN_COL;
    let mut i: usize = 0;
    while i < n
        invariant
            i <= n,
            n == rows@.len(),
            col == text_column(rows@, i as nat),
        decreases n - i,
    {
        let width = rows[i].width();
        if width > col {
            col = width;
        }
        i = i + 1;
    }
    col
}

proof fn lemma_text_column(rows: Seq<Row>, n: nat, i: int)
    requires
        0 <= i < n <= rows.len(),
    ensures
        rows[i].text@.len() <= text_column(rows, n),
    decreases n,
{
    if i < n - 1 {
        lemma_text_column(rows, (n - 1) as nat, i);
    }
}

proof fn lemma_text_column_least(rows: Seq<Row>, n: nat)
    ensures
        text_column(rows, n) >= MIN_COL,
    decreases n,
{
    if n > 0 && n <= rows.len() {
        lemma_text_column_least(rows, (n - 1) as nat);
    }
}

fn render_header(name: &str, lp: &str, rp: &str) -> (out: String)
    ensures
        out@ == "==== "@ + name@ + "  TARGET "@ + lp@ + "%  OURS "@ + rp@ + "% ====\n"@,
{
    let mut out = String::from_str("==== ");
    out.append(name);
    out.append("  TARGET ");
    out.append(lp);
    out.append("%  OURS ");
    out.append(rp);
    out.append("% ====\n");
    out
}

fn render_head(col: usize, gutter: usize) -> (out: String)
    requires
        col >= MIN_COL,
    ensures
        out@ == table_head((col + gutter) as nat),
{
    let ghost whole = (col + gutter) as nat;
    proof {
        reveal_strlit("TARGET");
    }
    let mut out = String::from_str("TARGET");
    append_repeated(&mut out, ' ', col - 6);
    append_repeated(&mut out, ' ', gutter);
    assert(out@ =~= left_in("TARGET"@, whole));
    out.append(" | OURS\n");
    let mut rule = String::new();
    append_repeated(&mut rule, '-', col);
    append_repeated(&mut rule, '-', gutter);
    append_repeated(&mut rule, '-', 6);
    assert(rule@ =~= repeated('-', whole + 6));
    out.append(rule.as_str());
    out.append("\n");
    out
}

/// One side's rows with the gutter beside them.
struct Column<'a> {
    rows: &'a Vec<Row>,
    gutters: Vec<String>,
    width: usize,
}

impl<'a> Column<'a> {
    spec fn wf(self, color: bool, branches: bool) -> bool {
        &&& branches ==> texts(self.gutters@) == gutter(self.rows@, color)
        &&& !branches ==> self.gutters@.len() == 0
        &&& self.width == gutter_columns(self.rows@, branches)
    }

    fn new(rows: &'a Vec<Row>, color: bool, branches: bool) -> (r: Column<'a>)
        requires
            rows@.len() + 3 <= usize::MAX,
        ensures
            r.wf(color, branches),
            r.rows@ == rows@,
    {
        let (gutters, width) = if branches {
            branch_gutter(rows, color)
        } else {
            (Vec::new(), 0)
        };
        Column { rows, gutters, width }
    }

    fn append_cell(&self, out: &mut String, i: usize, color: bool, branches: bool)
        requires
            self.wf(color, branches),
        ensures
            final(out)@ == old(out)@ + cell(self.rows@, i as int, color, branches),
    {
        let ghost start = out@;
        let ghost rows = self.rows@;
        if branches {
            assert(self.gutters@.len() == texts(self.gutters@).len());
        }
        if i < self.gutters.len() {
            assert(texts(self.gutters@)[i as int] == self.gutters@[i as int]@);
            out.append(self.gutters[i].as_str());
        } else {
            append_repeated(out, ' ', self.width);
        }
        if i < self.rows.len() {
            out.append(self.rows[i].display(color));
            assert((start + gutter_cell(rows, i as int, color, branches)) + rows[i as int].shown(color) =~= start
                + cell(rows, i as int, color, branches));
        }
    }

    fn is_changed(&self, i: usize) -> (r: bool)
        ensures
            r == (i < self.rows@.len() && self.rows@[i as int].changed),
    {
        i < self.rows.len() && self.rows[i].changed
    }
}

fn render_line(left: &Column, right: &Column, col: usize, i: usize, color: bool, branches: bool) -> (out: String)
    requires
        left.wf(color, branches),
        right.wf(color, branches),
        col == text_column(left.rows@, left.rows@.len()),
    ensures
        out@ == trim_end(full_line(left.rows@, right.rows@, i as int, color, branches)),
{
    // Pad against the row's printed width: the colored form and the gutter
    // carry escapes that take no columns.
    let pad = if i < left.rows.len() {
        proof {
            lemma_text_column(left.rows@, left.rows@.len(), i as int);
        }
        col - left.rows[i].width()
    } else {
        col
    };
    let mut line = String::new();
    left.append_cell(&mut line, i, color, branches);
    assert(line@ =~= cell(left.rows@, i as int, color, branches));
    append_repeated(&mut line, ' ', pad);
    line.append(" |");
    if left.is_changed(i) || right.is_changed(i) {
        append_styled(&mut line, "<>", RED, color);
    } else {
        line.append("  ");
    }
    line.append("| ");
    right.append_cell(&mut line, i, color, branches);
    trim_end_text(line.as_str())
}

/// Renders one function's target-vs-ours instruction table, headed by a
/// separator line naming the symbol and its match percentages.
fn render_function(
    name: &str,
    target: &Option<SideView>,
    base: &Option<SideView>,
    color: bool,
    branches: bool,
) -> (out: String)
    requires
        side_rows(*target).len() + 3 <= usize::MAX,
        side_rows(*base).len() + 3 <= usize::MAX,
    ensures
        out@ == function_text(name@, *target, *base, color, branches),
{
    let none: Vec<Row> = Vec::new();
    let (lp, lr): (String, &Vec<Row>) = match target {
        Some(s) => (paint_pct(s.match_percent.as_ref(), color), &s.rows),
        None => (paint_pct(None, color), &none),
    };
    let (rp, rr): (String, &Vec<Row>) = match base {
        Some(s) => (paint_pct(s.match_percent.as_ref(), color), &s.rows),
        None => (paint_pct(None, color), &none),
    };
    assert(lr@ =~= side_rows(*target));
    assert(rr@ =~= side_rows(*base));
    let left = Column::new(lr, color, branches);
    let right = Column::new(rr, color, branches);
    // A single overlong target row would otherwise push the separator right on
    // that row alone -- and those are the changed rows, the ones worth reading.
    // Size the column to the function's widest row instead.
    let col = widest(lr);
    proof {
        lemma_text_column_least(lr@, lr@.len());
    }
    let mut out = render_header(name, lp.as_str(), rp.as_str());
    out.append(render_head(col, left.width).as_str());
    let mut lines = String::new();
    let n = if lr.len() >= rr.len() {
        lr.len()
    } else {
        rr.len()
    };
    let mut i: usize = 0;
    while i < n
        invariant
            i <= n,
            n == line_count(lr@, rr@),
            left.wf(color, branches),
            right.wf(color, branches),
            left.rows@ == lr@,
            right.rows@ == rr@,
            col == text_column(lr@, lr@.len()),
            lines@ == table_lines(lr@, rr@, i as nat, color, branches),
        decreases n - i,
    {
        let line = render_line(&left, &right, col, i, color, branches);
        lines.append(line.as_str());
        lines.append("\n");
        i = i + 1;
    }
    out.append(lines.as_str());
    out
}

/// Whether a view's tables can be laid out: the gutter beside a side's rows is
/// no wider than a `usize` tells.
pub open spec fn is_drawable(view: FnView) -> bool {
    side_rows(view.target).len() + 3 <= usize::MAX && side_rows(view.base).len() + 3 <= usize::MAX
}

/// Renders one function's target-vs-ours instruction table, headed by a
/// separator line naming the symbol and its match percentages.
pub fn render_one(view: &FnView, color: bool, branches: bool) -> (r: String)
    requires
        is_drawable(*view),
    ensures
        r@ == function_text(view.name@, view.target, view.base, color, branches),
{
    render_function(view.name.as_str(), &view.target, &view.base, color, branches)
}

/// The tables of all functions.
pub open spec fn function_texts(views: Seq<FnView>, color: bool, branches: bool) -> Seq<Seq<char>> {
    Seq::new(views.len(), |i: int| function_text(views[i].name@, views[i].target, views[i].base, color, branches))
}

/// A diff: its functions with a blank line between each two. A requested
/// symbol that matched nothing still gets a header.
pub open spec fn diff_text(views: Seq<FnView>, symbol: Option<Seq<char>>, color: bool, branches: bool) -> Seq<char> {
    if views.len() == 0 {
        match symbol {
            Some(name) => function_text(name, None, None, color, branches),
            None => "no functions found in target\n"@,
        }
    } else {
        joined(function_texts(views, color, branches), "\n"@)
    }
}

/// Renders the diff for a single named function, or -- when `symbol` is `None`
/// -- every function in the target, each under its own separator header.
pub fn render_diff(views: &Vec<FnView>, symbol: Option<&str>, color: bool, branches: bool) -> (r: String)
    requires
        forall|i: int| 0 <= i < views@.len() ==> is_drawable(#[trigger] views@[i]),
    ensures
        r@ == diff_text(views@, opt_str(symbol), color, branches),
{
    if views.len() == 0 {
        return match symbol {
            // A requested symbol that matched nothing still gets a header, so
            // the caller sees the dashes rather than silence.
            Some(name) => render_function(name, &None, &None, color, branches),
            None => "no functions found in target\n".to_owned(),
        };
    }
    let ghost all = function_texts(views@, color, branches);
    let mut out = String::new();
    let n = views.len();
    let mut i: usize = 0;
    assert(all.take(0) =~= Seq::empty());
    while i < n
        invariant
            i <= n,
            n == views@.len(),
            all == function_texts(views@, color, branches),
            forall|i: int| 0 <= i < views@.len() ==> is_drawable(#[trigger] views@[i]),
            out@ == joined(all.take(i as int), "\n"@),
        decreases n - i,
    {
        assert(all.take(i + 1).drop_last() =~= all.take(i as int));
        if i > 0 {
            out.append("\n");
        }
        let text = render_one(&views[i], color, branches);
        assert(all.take(i + 1).last() == text@);
        out.append(text.as_str());
        if i == 0 {
            assert(out@ =~= text@);
        }
        i = i + 1;
    }
    assert(all.take(n as int) =~= all);
    out
}

/// Whether a side can be colored without a change in what is shown: its
/// percentage holds no escapes and its rows' forms agree.
pub open spec fn side_agrees(side: Option<SideView>) -> bool {
    &&& side_pct(side) is Some ==> is_plain(side_pct(side)->0.text)
    &&& forall|i: int|
        0 <= i < side_rows(side).len() ==> forms_agree(
            (#[trigger] side_rows(side)[i]).text@,
            side_rows(side)[i].colored@,
        )
}

/// Whether a function can be colored without a change in what is shown.
pub open spec fn view_agrees(view: FnView) -> bool {
    is_plain(view.name@) && side_agrees(view.target) && side_agrees(view.base)
}

proof fn lemma_spaces_are_plain(n: nat)
    ensures
        is_plain(repeated(' ', n)),
        is_plain(repeated('-', n)),
{
}

proof fn lemma_cell(side: Option<SideView>, i: int, branches: bool)
    requires
        side_agrees(side),
        0 <= i,
    ensures
        trims_alike(cell(side_rows(side), i, true, branches), cell(side_rows(side), i, false, branches)),
{
    let rows = side_rows(side);
    let colored = gutter_cell(rows, i, true, branches);
    let plain = gutter_cell(rows, i, false, branches);
    if branches && i < rows.len() {
        law_gutter_columns(rows, i);
    } else {
        lemma_spaces_are_plain(gutter_columns(rows, branches));
        lemma_plain_trims_alike(plain);
    }
    if i < rows.len() {
        let row = rows[i];
        assert(forms_agree(row.text@, row.colored@));
        lemma_plain_trims_alike(row.text@);
        if row.text@.len() == 0 {
            assert(row.colored@ =~= row.text@);
        } else {
            lemma_trim_end(row.text@);
            lemma_shown_end(row.colored@);
        }
        lemma_concat_trims_alike(colored, plain, row.colored@, row.text@);
    }
}

proof fn lemma_full_line(target: Option<SideView>, base: Option<SideView>, i: int, branches: bool)
    requires
        side_agrees(target),
        side_agrees(base),
        0 <= i,
    ensures
        trims_alike(
            full_line(side_rows(target), side_rows(base), i, true, branches),
            full_line(side_rows(target), side_rows(base), i, false, branches),
        ),
{
    let left = side_rows(target);
    let right = side_rows(base);
    lemma_cell(target, i, branches);
    lemma_cell(base, i, branches);
    let c1 = cell(left, i, true, branches);
    let p1 = cell(left, i, false, branches);
    let pad = repeated(' ', fill(left, i));
    lemma_spaces_are_plain(fill(left, i));
    lemma_plain_trims_alike(pad);
    lemma_concat_trims_alike(c1, p1, pad, pad);
    reveal_strlit(" |");
    reveal_strlit("| ");
    reveal_strlit("<>");
    reveal_strlit("  ");
    lemma_plain_trims_alike(" |"@);
    lemma_concat_trims_alike(c1 + pad, p1 + pad, " |"@, " |"@);
    let cm = mark(left, right, i, true);
    let pm = mark(left, right, i, false);
    lemma_colors_are_escapes();
    if is_changed(left, right, i) {
        lemma_styled_trims_alike("<>"@, RED@, true);
    } else {
        lemma_plain_trims_alike("  "@);
    }
    lemma_concat_trims_alike(c1 + pad + " |"@, p1 + pad + " |"@, cm, pm);
    lemma_plain_trims_alike("| "@);
    lemma_concat_trims_alike(c1 + pad + " |"@ + cm, p1 + pad + " |"@ + pm, "| "@, "| "@);
    lemma_concat_trims_alike(
        c1 + pad + " |"@ + cm + "| "@,
        p1 + pad + " |"@ + pm + "| "@,
        cell(right, i, true, branches),
        cell(right, i, false, branches),
    );
}

proof fn lemma_table_lines(target: Option<SideView>, base: Option<SideView>, n: nat, branches: bool)
    requires
        side_agrees(target),
        side_agrees(base),
    ensures
        shows(
            table_lines(side_rows(target), side_rows(base), n, true, branches),
            table_lines(side_rows(target), side_rows(base), n, false, branches),
        ),
    decreases n,
{
    let left = side_rows(target);
    let right = side_rows(base);
    if n > 0 {
        lemma_table_lines(target, base, (n - 1) as nat, branches);
        lemma_full_line(target, base, n - 1, branches);
        let line = trim_end(full_line(left, right, n - 1, true, branches));
        let before = table_lines(left, right, (n - 1) as nat, true, branches);
        lemma_visible_concat(before, line);
        reveal_strlit("\n");
        lemma_visible_plain("\n"@);
        lemma_visible_concat(before + line, "\n"@);
    } else {
        lemma_visible_plain(Seq::<char>::empty());
    }
}

proof fn lemma_painted_pct(pct: Option<PercentFacts>)
    requires
        pct is Some ==> is_plain(pct->0.text),
    ensures
        shows(painted_pct(pct, true), painted_pct(pct, false)),
{
    lemma_colors_are_escapes();
    match pct {
        Some(p) => {
            lemma_visible_plain(p.text);
            lemma_styled_visible(p.text, pct_escape(p.bits), true);
        },
        None => {
            reveal_strlit("-");
            lemma_visible_plain("-"@);
        },
    }
}

proof fn lemma_header(name: Seq<char>, target: Option<PercentFacts>, base: Option<PercentFacts>)
    requires
        is_plain(name),
        target is Some ==> is_plain(target->0.text),
        base is Some ==> is_plain(base->0.text),
    ensures
        shows(header(name, target, base, true), header(name, target, base, false)),
{
    reveal_strlit("==== ");
    reveal_strlit("  TARGET ");
    reveal_strlit("%  OURS ");
    reveal_strlit("% ====\n");
    lemma_painted_pct(target);
    lemma_painted_pct(base);
    lemma_visible_plain(name);
    lemma_visible_plain("==== "@);
    lemma_visible_plain("  TARGET "@);
    lemma_visible_plain("%  OURS "@);
    lemma_visible_plain("% ====\n"@);
    let ct = painted_pct(target, true);
    let pt = painted_pct(target, false);
    let cb = painted_pct(base, true);
    let pb = painted_pct(base, false);
    let a = "==== "@ + name + "  TARGET "@;
    lemma_shows_concat("==== "@, "==== "@, name, name);
    lemma_shows_concat("==== "@ + name, "==== "@ + name, "  TARGET "@, "  TARGET "@);
    lemma_shows_concat(a, a, ct, pt);
    lemma_shows_concat(a + ct, a + pt, "%  OURS "@, "%  OURS "@);
    lemma_shows_concat(a + ct + "%  OURS "@, a + pt + "%  OURS "@, cb, pb);
    lemma_shows_concat(
        a + ct + "%  OURS "@ + cb,
        a + pt + "%  OURS "@ + pb,
        "% ====\n"@,
        "% ====\n"@,
    );
}

proof fn lemma_table_head(col: nat)
    ensures
        is_plain(table_head(col)),
{
    reveal_strlit("TARGET");
    reveal_strlit(" | OURS\n");
    reveal_strlit("\n");
    let n: nat = if 6 < col {
        (col - 6) as nat
    } else {
        0
    };
    lemma_spaces_are_plain(n);
    lemma_spaces_are_plain(col + 6);
    lemma_plain_concat("TARGET"@, repeated(' ', n));
    lemma_plain_concat(left_in("TARGET"@, col), " | OURS\n"@);
    lemma_plain_concat(left_in("TARGET"@, col) + " | OURS\n"@, repeated('-', col + 6));
    lemma_plain_concat(left_in("TARGET"@, col) + " | OURS\n"@ + repeated('-', col + 6), "\n"@);
}

proof fn lemma_function_text(name: Seq<char>, target: Option<SideView>, base: Option<SideView>, branches: bool)
    requires
        is_plain(name),
        side_agrees(target),
        side_agrees(base),
    ensures
        shows(function_text(name, target, base, true, branches), function_text(name, target, base, false, branches)),
{
    let left = side_rows(target);
    let right = side_rows(base);
    let n = line_count(left, right);
    lemma_header(name, side_pct(target), side_pct(base));
    let head = table_head(column(left, branches));
    lemma_table_head(column(left, branches));
    lemma_visible_plain(head);
    lemma_table_lines(target, base, n, branches);
    let ch = header(name, side_pct(target), side_pct(base), true);
    let ph = header(name, side_pct(target), side_pct(base), false);
    lemma_shows_concat(ch, ph, head, head);
    lemma_shows_concat(
        ch + head,
        ph + head,
        table_lines(left, right, n, true, branches),
        table_lines(left, right, n, false, branches),
    );
}

/// Color adds escapes and nothing else: without them a colored diff reads as
/// the plain one.
pub proof fn law_color_adds_only_escapes(views: Seq<FnView>, symbol: Option<Seq<char>>, branches: bool)
    requires
        forall|i: int| 0 <= i < views.len() ==> view_agrees(#[trigger] views[i]),
        symbol is Some ==> is_plain(symbol->0),
    ensures
        visible(diff_text(views, symbol, true, branches)) == diff_text(views, symbol, false, branches),
{
    if views.len() == 0 {
        match symbol {
            Some(name) => {
                lemma_function_text(name, None, None, branches);
            },
            None => {
                reveal_strlit("no functions found in target\n");
                lemma_visible_plain("no functions found in target\n"@);
            },
        }
    } else {
        lemma_joined(views, views.len(), branches);
        let n = views.len() as int;
        assert(function_texts(views, true, branches).take(n) =~= function_texts(views, true, branches));
        assert(function_texts(views, false, branches).take(n) =~= function_texts(views, false, branches));
    }
}

proof fn lemma_joined(views: Seq<FnView>, n: nat, branches: bool)
    requires
        n <= views.len(),
        forall|i: int| 0 <= i < views.len() ==> view_agrees(#[trigger] views[i]),
    ensures
        shows(
            joined(function_texts(views, true, branches).take(n as int), "\n"@),
            joined(function_texts(views, false, branches).take(n as int), "\n"@),
        ),
    decreases n,
{
    let colored = function_texts(views, true, branches);
    let plain = function_texts(views, false, branches);
    if n == 0 {
        lemma_visible_plain(Seq::<char>::empty());
    } else {
        let view = views[n - 1];
        lemma_joined(views, (n - 1) as nat, branches);
        lemma_function_text(view.name@, view.target, view.base, branches);
        assert(colored.take(n as int).drop_last() =~= colored.take(n - 1));
        assert(plain.take(n as int).drop_last() =~= plain.take(n - 1));
        if n > 1 {
            reveal_strlit("\n");
            lemma_visible_plain("\n"@);
            let cb = joined(colored.take(n - 1), "\n"@);
            let pb = joined(plain.take(n - 1), "\n"@);
            lemma_shows_concat(cb, pb, "\n"@, "\n"@);
            lemma_shows_concat(cb + "\n"@, pb + "\n"@, colored[n - 1], plain[n - 1]);
        }
    }
}

/// The separator never drifts: on every line of a function it stands right
/// behind the TARGET column, however long a row is.
pub proof fn law_separator_keeps_its_column(left: Seq<Row>, right: Seq<Row>, i: int, branches: bool)
    requires
        0 <= i < line_count(left, right),
    ensures
        ({
            let line = trim_end(full_line(left, right, i, false, branches));
            let col = column(left, branches) as int;
            line.len() >= col + 2 && line[col] == ' ' && line[col + 1] == '|'
        }),
{
    let col = column(left, branches);
    let first = cell(left, i, false, branches);
    let pad = repeated(' ', fill(left, i));
    if i < left.len() {
        lemma_text_column(left, left.len(), i);
        if branches {
            law_gutter_columns(left, i);
        }
    }
    assert((first + pad).len() == col);
    reveal_strlit(" |");
    reveal_strlit("| ");
    let start = first + pad + " |"@;
    let m = mark(left, right, i, false);
    let rest = m + "| "@ + cell(right, i, false, branches);
    assert(full_line(left, right, i, false, branches) =~= start + rest);
    lemma_trim_end_concat(start, rest);
    assert(start[col as int + 1] == '|');
    assert(start[col as int] == ' ');
    lemma_trim_end(start);
}

/// The last of the first `n` functions that goes by a key.
pub open spec fn view_by_key(views: Seq<FnView>, key: Seq<char>, n: nat) -> Option<FnView>
    decreases n,
{
    if n == 0 || n > views.len() {
        None
    } else if key_of(views[n - 1].name@) == key {
        Some(views[n - 1])
    } else {
        view_by_key(views, key, (n - 1) as nat)
    }
}

/// The first `n` rows of a listing.
pub open spec fn listing_lines(rows: Seq<Row>, n: nat, color: bool, branches: bool) -> Seq<char>
    decreases n,
{
    if n == 0 {
        Seq::empty()
    } else {
        listing_lines(rows, (n - 1) as nat, color, branches) + "  "@ + cell(rows, n - 1, color, branches) + "\n"@
    }
}

/// The target's instructions of a symbol under a header with its size.
pub open spec fn listing_text(symbol: Seq<char>, found: Option<FnView>, color: bool, branches: bool) -> Seq<char> {
    let size = match found {
        Some(view) => digits(view.size as nat, 10),
        None => "?"@,
    };
    let target = match found {
        Some(view) => view.target,
        None => None,
    };
    "==== "@ + symbol + " (size "@ + size + ") ====\n"@ + match target {
        Some(side) => listing_lines(side.rows@, side.rows@.len(), color, branches),
        None => "  <not found in target>\n"@,
    }
}

fn find_view<'a>(views: &'a Vec<FnView>, symbol: &str) -> (r: Option<&'a FnView>)
    ensures
        match r {
            Some(view) => view_by_key(views@, key_of(symbol@), views@.len()) == Some(*view) && views@.contains(*view),
            None => view_by_key(views@, key_of(symbol@), views@.len()) is None,
        },
{
    let key = symbol_key(symbol);
    let n = views.len();
    let mut i: usize = n;
    while i > 0
        invariant
            i <= n,
            n == views@.len(),
            key@ == key_of(symbol@),
            view_by_key(views@, key@, n as nat) == view_by_key(views@, key@, i as nat),
        decreases i,
    {
        let view = &views[i - 1];
        let own = symbol_key(view.name.as_str());
        if same_text(own.as_str(), key.as_str()) {
            assert(views@[i - 1] == *view);
            return Some(view);
        }
        i = i - 1;
    }
    None
}

/// Lists the target's instructions of a symbol. Of several functions under one
/// key the last is taken.
pub fn render_listing(views: &Vec<FnView>, symbol: &str, color: bool, branches: bool) -> (r: String)
    requires
        forall|i: int| 0 <= i < views@.len() ==> is_drawable(#[trigger] views@[i]),
    ensures
        r@ == listing_text(symbol@, view_by_key(views@, key_of(symbol@), views@.len()), color, branches),
{
    let found = find_view(views, symbol);
    let size = match found {
        Some(view) => digits_text(view.size, 10),
        None => "?".to_owned(),
    };
    let mut out = String::from_str("==== ");
    out.append(symbol);
    out.append(" (size ");
    out.append(size.as_str());
    out.append(") ====\n");
    if let Some(view) = found {
        if let Some(side) = &view.target {
            proof {
                let k = choose|k: int| 0 <= k < views@.len() && views@[k] == *view;
                assert(is_drawable(views@[k]));
            }
            let column = Column::new(&side.rows, color, branches);
            let mut lines = String::new();
            let n = side.rows.len();
            let mut i: usize = 0;
            while i < n
                invariant
                    i <= n,
                    n == side.rows@.len(),
                    column.rows@ == side.rows@,
                    column.wf(color, branches),
                    lines@ == listing_lines(side.rows@, i as nat, color, branches),
                decreases n - i,
            {
                lines.append("  ");
                column.append_cell(&mut lines, i, color, branches);
                lines.append("\n");
                i = i + 1;
            }
            out.append(lines.as_str());
            return out;
        }
    }
    out.append("  <not found in target>\n");
    out
}

/// Color adds escapes and nothing else to a listing.
pub proof fn law_color_adds_only_escapes_to_a_listing(symbol: Seq<char>, found: Option<FnView>, branches: bool)
    requires
        is_plain(symbol),
        found is Some ==> view_agrees(found->0),
    ensures
        visible(listing_text(symbol, found, true, branches)) == listing_text(symbol, found, false, branches),
{
    let size = match found {
        Some(view) => digits(view.size as nat, 10),
        None => "?"@,
    };
    reveal_strlit("==== ");
    reveal_strlit(" (size ");
    reveal_strlit(") ====\n");
    reveal_strlit("?");
    reveal_strlit("  <not found in target>\n");
    match found {
        Some(view) => lemma_digits_plain(view.size as nat),
        None => {},
    }
    let head = "==== "@ + symbol + " (size "@ + size + ") ====\n"@;
    lemma_plain_concat("==== "@, symbol);
    lemma_plain_concat("==== "@ + symbol, " (size "@);
    lemma_plain_concat("==== "@ + symbol + " (size "@, size);
    lemma_plain_concat("==== "@ + symbol + " (size "@ + size, ") ====\n"@);
    lemma_shows_plain(head);
    lemma_shows_plain("  <not found in target>\n"@);
    let target = match found {
        Some(view) => view.target,
        None => None,
    };
    match target {
        Some(side) => {
            let n = side.rows@.len();
            lemma_listing_lines(target, n, branches);
            lemma_shows_concat(
                head,
                head,
                listing_lines(side.rows@, n, true, branches),
                listing_lines(side.rows@, n, false, branches),
            );
        },
        None => {
            lemma_shows_concat(head, head, "  <not found in target>\n"@, "  <not found in target>\n"@);
        },
    }
}

proof fn lemma_listing_lines(side: Option<SideView>, n: nat, branches: bool)
    requires
        side_agrees(side),
    ensures
        shows(
            listing_lines(side_rows(side), n, true, branches),
            listing_lines(side_rows(side), n, false, branches),
        ),
    decreases n,
{
    let rows = side_rows(side);
    if n == 0 {
        lemma_shows_plain(Seq::<char>::empty());
    } else {
        lemma_listing_lines(side, (n - 1) as nat, branches);
        lemma_cell(side, n - 1, branches);
        reveal_strlit("  ");
        reveal_strlit("\n");
        lemma_shows_plain("  "@);
        lemma_shows_plain("\n"@);
        let c = listing_lines(rows, (n - 1) as nat, true, branches);
        let p = listing_lines(rows, (n - 1) as nat, false, branches);
        let cc = cell(rows, n - 1, true, branches);
        let pc = cell(rows, n - 1, false, branches);
        lemma_shows_concat(c, p, "  "@, "  "@);
        lemma_shows_concat(c + "  "@, p + "  "@, cc, pc);
        lemma_shows_concat(c + "  "@ + cc, p + "  "@ + pc, "\n"@, "\n"@);
    }
}

/// What a side reads at line `i`: the gutter beside its row and the row; behind
/// the last row blanks as wide as the gutter.
pub open spec fn reads_at(rows: Seq<Row>, i: int, color: bool, branches: bool) -> Seq<char> {
    if i < rows.len() {
        (if branches {
            gutter(rows, color)[i]
        } else {
            Seq::empty()
        }) + (if color {
            rows[i].colored@
        } else {
            rows[i].text@
        })
    } else if branches {
        repeated(' ', gutter_width(rows))
    } else {
        Seq::empty()
    }
}

/// Two sides on one line with the bars between them, the second behind the given
/// blanks.
pub open spec fn side_by_side(l: Seq<char>, pad: nat, marked: bool, r: Seq<char>, color: bool) -> Seq<char> {
    let m = if !marked {
        "  "@
    } else if color {
        "\x1b[31m<>\x1b[0m"@
    } else {
        "<>"@
    };
    l + repeated(' ', pad) + " |"@ + m + "| "@ + r
}

/// The rows of a side, of which an absent one has none.
pub open spec fn rows_of(side: Option<SideView>) -> Seq<Row> {
    match side {
        Some(view) => view.rows@,
        None => Seq::empty(),
    }
}

/// How a side's match percentage reads: a dash where it has none.
pub open spec fn percentage_of(side: Option<SideView>, color: bool) -> Seq<char> {
    match side {
        Some(view) => match view.match_percent {
            Some(p) => if !color {
                p.text@
            } else if 0x42c8_0000 <= p.bits <= 0x7f80_0000 {
                "\x1b[32m"@ + p.text@ + "\x1b[0m"@
            } else {
                "\x1b[31m"@ + p.text@ + "\x1b[0m"@
            },
            None => "-"@,
        },
        None => "-"@,
    }
}

/// Whether line `i` is flagged on either side.
pub open spec fn flagged(left: Seq<Row>, right: Seq<Row>, i: int) -> bool {
    ||| 0 <= i < left.len() && left[i].changed
    ||| 0 <= i < right.len() && right[i].changed
}

/// The lines of a function's table, the column as wide as told: a header that
/// names the function and its percentages, the target's before ours, the titles,
/// a rule, and one line for each row of the longer side, the target's row on the
/// left and ours on the right.
pub open spec fn table_of(
    name: Seq<char>,
    target: Option<SideView>,
    base: Option<SideView>,
    color: bool,
    branches: bool,
    width: nat,
) -> Seq<Seq<char>> {
    let left = rows_of(target);
    let right = rows_of(base);
    let whole = width + if branches { gutter_width(left) } else { 0 };
    seq![
        "==== "@ + name + "  TARGET "@ + percentage_of(target, color) + "%  OURS "@ + percentage_of(base, color)
            + "% ===="@,
        "TARGET"@ + repeated(' ', (whole - 6) as nat) + " | OURS"@,
        repeated('-', whole + 6),
    ] + Seq::new(
        if left.len() >= right.len() { left.len() } else { right.len() },
        |i: int|
            trim_end(
                side_by_side(
                    reads_at(left, i, color, branches),
                    (width - if i < left.len() { left[i].text@.len() } else { 0 }) as nat,
                    flagged(left, right, i),
                    reads_at(right, i, color, branches),
                    color,
                ),
            ),
    )
}

/// A function's table has a line for every row, from the first to the last, the
/// target's row on the left of the bars and ours on the right, under a header
/// with both percentages. The column is as wide as the target's widest row, and
/// at least 44; that width is given.
pub proof fn law_a_table_has_a_line_for_every_row(
    name: Seq<char>,
    target: Option<SideView>,
    base: Option<SideView>,
    color: bool,
    branches: bool,
) -> (width: nat)
    ensures
        width >= 44,
        forall|i: int| 0 <= i < rows_of(target).len() ==> (#[trigger] rows_of(target)[i]).text@.len() <= width,
        width == 44 || exists|i: int|
            0 <= i < rows_of(target).len() && (#[trigger] rows_of(target)[i]).text@.len() == width,
        function_text(name, target, base, color, branches) == as_lines(
            table_of(name, target, base, color, branches, width),
        ),
{
    let left = side_rows(target);
    let right = side_rows(base);
    let width = text_column(left, left.len());
    assert forall|i: int| 0 <= i < left.len() implies (#[trigger] left[i]).text@.len() <= width by {
        lemma_text_column(left, left.len(), i);
    }
    lemma_text_column_least(left, left.len());
    lemma_text_column_is_one(left, left.len());
    lemma_table_is_lines(name, target, base, color, branches, line_count(left, right));
    let whole = table_of(name, target, base, color, branches, width);
    assert(whole.take(3 + line_count(left, right) as int) =~= whole);
    width
}

proof fn lemma_text_column_is_one(rows: Seq<Row>, n: nat)
    requires
        n <= rows.len(),
    ensures
        text_column(rows, n) == 44 || exists|i: int|
            0 <= i < n && (#[trigger] rows[i]).text@.len() == text_column(rows, n),
    decreases n,
{
    if n > 0 {
        lemma_text_column_is_one(rows, (n - 1) as nat);
        let before = text_column(rows, (n - 1) as nat);
        if rows[n - 1].text@.len() <= before && before != 44 {
            let i = choose|i: int| 0 <= i < n - 1 && (#[trigger] rows[i]).text@.len() == before;
            assert(rows[i].text@.len() == text_column(rows, n));
        }
    }
}

proof fn lemma_percentage(side: Option<SideView>, color: bool)
    ensures
        painted_pct(side_pct(side), color) == percentage_of(side, color),
{
    reveal_strlit("\x1b[32m");
    reveal_strlit("\x1b[31m");
}

proof fn lemma_line_reads(left: Seq<Row>, right: Seq<Row>, i: int, color: bool, branches: bool)
    requires
        0 <= i < line_count(left, right),
    ensures
        full_line(left, right, i, color, branches) == side_by_side(
            reads_at(left, i, color, branches),
            (text_column(left, left.len()) - if i < left.len() { left[i].text@.len() } else { 0 }) as nat,
            flagged(left, right, i),
            reads_at(right, i, color, branches),
            color,
        ),
{
    reveal_strlit("\x1b[31m");
    reveal_strlit("\x1b[0m");
    reveal_strlit("<>");
    reveal_strlit("\x1b[31m<>\x1b[0m");
    if i < left.len() {
        lemma_text_column(left, left.len(), i);
    }
    assert(cell(left, i, color, branches) =~= reads_at(left, i, color, branches));
    assert(cell(right, i, color, branches) =~= reads_at(right, i, color, branches));
    assert(styled("<>"@, RED@, true) =~= "\x1b[31m<>\x1b[0m"@);
}

proof fn lemma_three_lines(a: Seq<char>, b: Seq<char>, c: Seq<char>)
    ensures
        as_lines(seq![a, b, c]) == (a + "\n"@) + (b + "\n"@) + (c + "\n"@),
{
    let none = Seq::<Seq<char>>::empty();
    let one = none.push(a);
    let two = one.push(b);
    lemma_as_lines_more(none, a);
    lemma_as_lines_more(one, b);
    lemma_as_lines_more(two, c);
    assert(seq![a, b, c] =~= two.push(c));
    assert(as_lines(one) =~= a + "\n"@);
    assert(as_lines(two) =~= (a + "\n"@) + (b + "\n"@));
    assert(as_lines(two.push(c)) =~= (a + "\n"@) + (b + "\n"@) + (c + "\n"@));
}

proof fn lemma_head_is_lines(
    name: Seq<char>,
    target: Option<SideView>,
    base: Option<SideView>,
    color: bool,
    branches: bool,
)
    ensures
        ({
            let left = side_rows(target);
            header(name, side_pct(target), side_pct(base), color) + table_head(column(left, branches)) == as_lines(
                table_of(name, target, base, color, branches, text_column(left, left.len())).take(3),
            )
        }),
{
    let left = side_rows(target);
    let whole = table_of(name, target, base, color, branches, text_column(left, left.len()));
    let a = whole[0];
    let b = whole[1];
    let c = whole[2];
    lemma_text_column_least(left, left.len());
    lemma_percentage(target, color);
    lemma_percentage(base, color);
    reveal_strlit("% ====");
    reveal_strlit("% ====\n");
    reveal_strlit(" | OURS");
    reveal_strlit(" | OURS\n");
    reveal_strlit("\n");
    reveal_strlit("TARGET");
    lemma_three_lines(a, b, c);
    assert(whole.take(3) =~= seq![a, b, c]);
    let before = "==== "@ + name + "  TARGET "@ + percentage_of(target, color) + "%  OURS "@ + percentage_of(
        base,
        color,
    );
    assert(before + "% ====\n"@ =~= before + "% ===="@ + "\n"@);
    let col = column(left, branches);
    let title = left_in("TARGET"@, col);
    assert(title == "TARGET"@ + repeated(' ', (col - 6) as nat));
    assert(title + " | OURS\n"@ =~= title + " | OURS"@ + "\n"@);
    assert((a + "\n"@) + table_head(col) =~= (a + "\n"@) + (b + "\n"@) + (c + "\n"@));
}

proof fn lemma_table_is_lines(
    name: Seq<char>,
    target: Option<SideView>,
    base: Option<SideView>,
    color: bool,
    branches: bool,
    n: nat,
)
    requires
        n <= line_count(side_rows(target), side_rows(base)),
    ensures
        ({
            let left = side_rows(target);
            let right = side_rows(base);
            header(name, side_pct(target), side_pct(base), color) + table_head(column(left, branches)) + table_lines(
                left,
                right,
                n,
                color,
                branches,
            ) == as_lines(
                table_of(name, target, base, color, branches, text_column(left, left.len())).take(3 + n as int),
            )
        }),
    decreases n,
{
    let left = side_rows(target);
    let right = side_rows(base);
    let width = text_column(left, left.len());
    let whole = table_of(name, target, base, color, branches, width);
    let head = header(name, side_pct(target), side_pct(base), color) + table_head(column(left, branches));
    lemma_text_column_least(left, left.len());
    if n == 0 {
        lemma_head_is_lines(name, target, base, color, branches);
        assert(head + table_lines(left, right, 0, color, branches) =~= head);
    } else {
        let m = (n - 1) as nat;
        lemma_table_is_lines(name, target, base, color, branches, m);
        lemma_line_reads(left, right, n - 1, color, branches);
        let line = trim_end(full_line(left, right, n - 1, color, branches));
        let before = whole.take(3 + m as int);
        lemma_as_lines_more(before, line);
        assert(whole[2 + n as int] == line);
        assert(whole.take(3 + n as int) =~= before.push(line));
        assert(head + table_lines(left, right, n, color, branches) =~= head + table_lines(
            left,
            right,
            m,
            color,
            branches,
        ) + line + "\n"@);
    }
}

/// Whether a side's rows are one line each.
pub open spec fn rows_are_lines(rows: Seq<Row>) -> bool {
    forall|i: int| 0 <= i < rows.len() ==> !(#[trigger] rows[i]).text@.contains('\n')
}

/// Whether a function's name and percentages are on one line, and its rows one
/// line each.
pub open spec fn is_on_lines(name: Seq<char>, target: Option<SideView>, base: Option<SideView>) -> bool {
    &&& !name.contains('\n')
    &&& !percentage_of(target, false).contains('\n')
    &&& !percentage_of(base, false).contains('\n')
    &&& rows_are_lines(rows_of(target))
    &&& rows_are_lines(rows_of(base))
}

proof fn lemma_no_feed(a: Seq<char>, b: Seq<char>)
    requires
        !a.contains('\n'),
        !b.contains('\n'),
    ensures
        !(a + b).contains('\n'),
{
    if (a + b).contains('\n') {
        let k = choose|k: int| 0 <= k < (a + b).len() && (a + b)[k] == '\n';
        if k < a.len() {
            assert(a[k] == '\n');
        } else {
            assert(b[k - a.len()] == '\n');
        }
    }
}

proof fn lemma_reads_on_a_line(rows: Seq<Row>, i: int, branches: bool)
    requires
        0 <= i,
        rows_are_lines(rows),
    ensures
        !reads_at(rows, i, false, branches).contains('\n'),
{
    if i < rows.len() {
        let g = if branches {
            gutter(rows, false)[i]
        } else {
            Seq::empty()
        };
        assert(!g.contains('\n')) by {
            if g.contains('\n') {
                let k = choose|k: int| 0 <= k < g.len() && g[k] == '\n';
                law_gutter_is_drawn_in_strokes(rows, i, k);
            }
        }
        lemma_no_feed(g, rows[i].text@);
    }
}

proof fn lemma_side_by_side_on_a_line(l: Seq<char>, pad: nat, marked: bool, r: Seq<char>)
    requires
        !l.contains('\n'),
        !r.contains('\n'),
    ensures
        !trim_end(side_by_side(l, pad, marked, r, false)).contains('\n'),
        without_cr(trim_end(side_by_side(l, pad, marked, r, false))) == trim_end(
            side_by_side(l, pad, marked, r, false),
        ),
        trim_end(side_by_side(l, pad, marked, r, false)).len() >= l.len() + pad + 5,
        begins_with(
            trim_end(side_by_side(l, pad, marked, r, false)),
            l + repeated(' ', pad) + (if marked {
                seq![' ', '|', '<', '>', '|']
            } else {
                seq![' ', '|', ' ', ' ', '|']
            }),
        ),
{
    let s = side_by_side(l, pad, marked, r, false);
    let m = if marked {
        "<>"@
    } else {
        "  "@
    };
    reveal_strlit(" |");
    reveal_strlit("| ");
    reveal_strlit("<>");
    reveal_strlit("  ");
    let bars = if marked {
        seq![' ', '|', '<', '>', '|']
    } else {
        seq![' ', '|', ' ', ' ', '|']
    };
    let start = l + repeated(' ', pad) + bars;
    let rest = seq![' '] + r;
    assert(s =~= start + rest);
    lemma_trim_end_concat(start, rest);
    assert(start.last() == '|');
    assert(trim_end(start) == start);
    let t = trim_end(s);
    assert(begins_with(t, start)) by {
        assert(t.subrange(0, start.len() as int) =~= start);
    }
    lemma_trim_end(s);
    lemma_no_feed(l, repeated(' ', pad));
    lemma_no_feed(l + repeated(' ', pad), bars);
    lemma_no_feed(seq![' '], r);
    lemma_no_feed(start, rest);
    if t.contains('\n') {
        let k = choose|k: int| 0 <= k < t.len() && t[k] == '\n';
        assert(s[k] == '\n');
    }
}

/// A plain table reads, line by line, as its header, its titles, its rule and a
/// line for every row; and every line of a row is that of the two sides.
pub proof fn law_a_plain_table_reads_line_by_line(
    name: Seq<char>,
    target: Option<SideView>,
    base: Option<SideView>,
    branches: bool,
) -> (width: nat)
    requires
        is_on_lines(name, target, base),
    ensures
        width >= 44,
        forall|i: int| 0 <= i < rows_of(target).len() ==> (#[trigger] rows_of(target)[i]).text@.len() <= width,
        width == 44 || exists|i: int|
            0 <= i < rows_of(target).len() && (#[trigger] rows_of(target)[i]).text@.len() == width,
        lines(function_text(name, target, base, false, branches)) == table_of(
            name,
            target,
            base,
            false,
            branches,
            width,
        ),
{
    let width = law_a_table_has_a_line_for_every_row(name, target, base, false, branches);
    let all = table_of(name, target, base, false, branches, width);
    let left = rows_of(target);
    let right = rows_of(base);
    reveal_strlit("==== ");
    reveal_strlit("  TARGET ");
    reveal_strlit("%  OURS ");
    reveal_strlit("% ====");
    reveal_strlit("TARGET");
    reveal_strlit(" | OURS");
    let p = percentage_of(target, false);
    let q = percentage_of(base, false);
    lemma_no_feed("==== "@, name);
    lemma_no_feed("==== "@ + name, "  TARGET "@);
    lemma_no_feed("==== "@ + name + "  TARGET "@, p);
    lemma_no_feed("==== "@ + name + "  TARGET "@ + p, "%  OURS "@);
    lemma_no_feed("==== "@ + name + "  TARGET "@ + p + "%  OURS "@, q);
    lemma_no_feed("==== "@ + name + "  TARGET "@ + p + "%  OURS "@ + q, "% ===="@);
    let whole = width + if branches {
        gutter_width(left)
    } else {
        0
    };
    lemma_no_feed("TARGET"@, repeated(' ', (whole - 6) as nat));
    lemma_no_feed("TARGET"@ + repeated(' ', (whole - 6) as nat), " | OURS"@);
    assert(all[1].last() == 'S');
    assert(all[0].last() == '=');
    assert(all[2].last() == '-');
    assert forall|k: int| 0 <= k < all.len() implies !(#[trigger] all[k]).contains('\n') && without_cr(all[k])
        == all[k] by {
        if k >= 3 {
            let i = k - 3;
            lemma_reads_on_a_line(left, i, branches);
            lemma_reads_on_a_line(right, i, branches);
            lemma_side_by_side_on_a_line(
                reads_at(left, i, false, branches),
                (width - if i < left.len() { left[i].text@.len() } else { 0 }) as nat,
                flagged(left, right, i),
                reads_at(right, i, false, branches),
            );
        } else if k == 2 {
        } else if k == 1 {
        } else {
        }
    }
    law_written_lines_read_back(all, Seq::empty());
    assert(as_lines(all) + Seq::<char>::empty() =~= as_lines(all));
    assert(lines(as_lines(all)) =~= all);
    width
}

/// Between the bars of every line stands `<>` where the target's row or ours, or
/// both, is flagged as changed, and two blanks where neither is. The bars stand
/// right behind the column over which the rule is drawn, six dashes short of its
/// end.
pub proof fn law_changed_lines_are_marked(
    name: Seq<char>,
    target: Option<SideView>,
    base: Option<SideView>,
    branches: bool,
    i: int,
)
    requires
        is_on_lines(name, target, base),
        0 <= i < rows_of(target).len() || 0 <= i < rows_of(base).len(),
    ensures
        ({
            let text = lines(function_text(name, target, base, false, branches));
            let col = text[2].len() - 6;
            let line = text[3 + i];
            let changed = (i < rows_of(target).len() && rows_of(target)[i].changed) || (i < rows_of(base).len()
                && rows_of(base)[i].changed);
            &&& text.len() > 3 + i
            &&& 44 <= col && col + 5 <= line.len()
            &&& line[col] == ' ' && line[col + 1] == '|' && line[col + 4] == '|'
            &&& changed ==> line[col + 2] == '<' && line[col + 3] == '>'
            &&& !changed ==> line[col + 2] == ' ' && line[col + 3] == ' '
        }),
{
    let width = law_a_plain_table_reads_line_by_line(name, target, base, branches);
    let all = table_of(name, target, base, false, branches, width);
    let left = rows_of(target);
    let right = rows_of(base);
    let l = reads_at(left, i, false, branches);
    let r = reads_at(right, i, false, branches);
    let pad = (width - if i < left.len() {
        left[i].text@.len()
    } else {
        0
    }) as nat;
    let marked = flagged(left, right, i);
    lemma_reads_on_a_line(left, i, branches);
    lemma_reads_on_a_line(right, i, branches);
    lemma_side_by_side_on_a_line(l, pad, marked, r);
    if i < left.len() {
        assert(left[i].text@.len() <= width);
        if branches {
            law_gutter_columns(left, i);
        }
    }
    let bars = if marked {
        seq![' ', '|', '<', '>', '|']
    } else {
        seq![' ', '|', ' ', ' ', '|']
    };
    let start = l + repeated(' ', pad) + bars;
    let line = all[3 + i];
    let col = all[2].len() - 6;
    assert((l + repeated(' ', pad)).len() == col);
    assert(line.subrange(0, start.len() as int) == start);
    assert forall|k: int| 0 <= k < 5 implies line[col + k] == bars[k] by {
        assert(line.subrange(0, start.len() as int)[col + k] == start[col + k]);
    }
    assert(line[col] == bars[0] && line[col + 1] == bars[1] && line[col + 2] == bars[2] && line[col + 3] == bars[3]
        && line[col + 4] == bars[4]) by {
        assert(line[col + 0] == bars[0]);
    }
}

/// Flagging more of a line as changed never takes its mark away.
pub proof fn law_flagging_more_keeps_the_mark(
    name: Seq<char>,
    target: Option<SideView>,
    base: Option<SideView>,
    more_target: Option<SideView>,
    more_base: Option<SideView>,
    branches: bool,
    i: int,
)
    requires
        is_on_lines(name, target, base),
        is_on_lines(name, more_target, more_base),
        0 <= i < rows_of(target).len() || 0 <= i < rows_of(base).len(),
        rows_of(more_target).len() == rows_of(target).len(),
        rows_of(more_base).len() == rows_of(base).len(),
        i < rows_of(target).len() && rows_of(target)[i].changed ==> rows_of(more_target)[i].changed,
        i < rows_of(base).len() && rows_of(base)[i].changed ==> rows_of(more_base)[i].changed,
    ensures
        ({
            let text = lines(function_text(name, target, base, false, branches));
            let more = lines(function_text(name, more_target, more_base, false, branches));
            let col = text[2].len() - 6;
            let more_col = more[2].len() - 6;
            text[3 + i][col + 2] == '<' ==> more[3 + i][more_col + 2] == '<' && more[3 + i][more_col + 3] == '>'
        }),
{
    law_changed_lines_are_marked(name, target, base, branches, i);
    law_changed_lines_are_marked(name, more_target, more_base, branches, i);
}

/// Diffs of more functions are the diffs of each, in their order, with a blank
/// line between each two.
pub proof fn law_a_diff_shows_every_function(
    a: Seq<FnView>,
    b: Seq<FnView>,
    symbol: Option<Seq<char>>,
    color: bool,
    branches: bool,
)
    ensures
        a.len() > 0 && b.len() > 0 ==> diff_text(a + b, symbol, color, branches) == diff_text(
            a,
            symbol,
            color,
            branches,
        ) + "\n"@ + diff_text(b, symbol, color, branches),
        a.len() == 1 ==> diff_text(a, symbol, color, branches) == function_text(
            a[0].name@,
            a[0].target,
            a[0].base,
            color,
            branches,
        ),
        a.len() == 0 && symbol is Some ==> diff_text(a, symbol, color, branches) == function_text(
            symbol->0,
            None,
            None,
            color,
            branches,
        ),
        a.len() == 0 && symbol is None ==> diff_text(a, symbol, color, branches) == "no functions found in target\n"@,
{
    let ta = function_texts(a, color, branches);
    let tb = function_texts(b, color, branches);
    assert(function_texts(a + b, color, branches) =~= ta + tb);
    law_joined_lists(ta, tb, "\n"@);
}

/// What a listing says before its rows: the symbol as it was asked for, and its
/// size.
pub open spec fn listing_head(symbol: Seq<char>, size: Seq<char>) -> Seq<char> {
    "==== "@ + symbol + " (size "@ + size + ") ===="@
}

/// A listing has a line for every row of the target, in their order, each behind
/// two blanks and the gutter beside it, under a line with the symbol's size.
pub proof fn law_a_listing_has_a_line_for_every_row(
    symbol: Seq<char>,
    view: FnView,
    side: SideView,
    color: bool,
    branches: bool,
)
    requires
        view.target == Some(side),
    ensures
        listing_text(symbol, Some(view), color, branches) == as_lines(
            seq![listing_head(symbol, digits(view.size as nat, 10))] + Seq::new(
                side.rows@.len(),
                |i: int| "  "@ + reads_at(side.rows@, i, color, branches),
            ),
        ),
{
    let head = listing_head(symbol, digits(view.size as nat, 10));
    lemma_listing_head(symbol, digits(view.size as nat, 10));
    lemma_listing_is_lines(head, side.rows@, color, branches, side.rows@.len());
}

proof fn lemma_listing_head(symbol: Seq<char>, size: Seq<char>)
    ensures
        "==== "@ + symbol + " (size "@ + size + ") ====\n"@ == listing_head(symbol, size) + "\n"@,
{
    reveal_strlit(") ====\n");
    reveal_strlit(") ====");
    reveal_strlit("\n");
    let before = "==== "@ + symbol + " (size "@ + size;
    assert(before + ") ====\n"@ =~= before + ") ===="@ + "\n"@);
}

proof fn lemma_listing_is_lines(head: Seq<char>, rows: Seq<Row>, color: bool, branches: bool, n: nat)
    requires
        n <= rows.len(),
    ensures
        head + "\n"@ + listing_lines(rows, n, color, branches) == as_lines(
            seq![head] + Seq::new(n, |i: int| "  "@ + reads_at(rows, i, color, branches)),
        ),
    decreases n,
{
    let all = seq![head] + Seq::new(n, |i: int| "  "@ + reads_at(rows, i, color, branches));
    if n == 0 {
        let none = Seq::<Seq<char>>::empty();
        lemma_as_lines_more(none, head);
        assert(all =~= none.push(head));
        assert(as_lines(none) + head + "\n"@ =~= head + "\n"@ + listing_lines(rows, 0, color, branches));
    } else {
        let m = (n - 1) as nat;
        let init = seq![head] + Seq::new(m, |i: int| "  "@ + reads_at(rows, i, color, branches));
        let line = "  "@ + reads_at(rows, n - 1, color, branches);
        lemma_listing_is_lines(head, rows, color, branches, m);
        lemma_as_lines_more(init, line);
        assert(all =~= init.push(line));
        assert(cell(rows, n - 1, color, branches) =~= reads_at(rows, n - 1, color, branches));
        assert(head + "\n"@ + listing_lines(rows, n, color, branches) =~= head + "\n"@ + listing_lines(
            rows,
            m,
            color,
            branches,
        ) + line + "\n"@);
    }
}

/// A plain listing reads, behind its first line, one line per row: row `i` on
/// line `i`, so that it is printed before every row behind it.
pub proof fn law_a_plain_listing_reads_row_by_row(
    symbol: Seq<char>,
    view: FnView,
    side: SideView,
    branches: bool,
    i: int,
)
    requires
        view.target == Some(side),
        !symbol.contains('\n'),
        rows_are_lines(side.rows@),
        0 <= i < side.rows@.len(),
    ensures
        ({
            let text = lines(listing_text(symbol, Some(view), false, branches));
            &&& text.len() == side.rows@.len() + 1
            &&& text[0] == listing_head(symbol, digits(view.size as nat, 10))
            &&& !branches ==> text[1 + i] == without_cr("  "@ + side.rows@[i].text@)
            &&& branches ==> text[1 + i] == without_cr("  "@ + gutter(side.rows@, false)[i] + side.rows@[i].text@)
        }),
{
    let rows = side.rows@;
    let size = digits(view.size as nat, 10);
    let head = listing_head(symbol, size);
    let all = seq![head] + Seq::new(rows.len(), |i: int| "  "@ + reads_at(rows, i, false, branches));
    law_a_listing_has_a_line_for_every_row(symbol, view, side, false, branches);
    reveal_strlit("==== ");
    reveal_strlit(" (size ");
    reveal_strlit(") ====");
    reveal_strlit("  ");
    law_digits_tell_the_number(view.size as nat, 10);
    assert(!size.contains('\n')) by {
        if size.contains('\n') {
            let k = choose|k: int| 0 <= k < size.len() && size[k] == '\n';
            assert(size[k] != '\n');
        }
    }
    lemma_no_feed("==== "@, symbol);
    lemma_no_feed("==== "@ + symbol, " (size "@);
    lemma_no_feed("==== "@ + symbol + " (size "@, size);
    lemma_no_feed("==== "@ + symbol + " (size "@ + size, ") ===="@);
    assert(head.last() == '=');
    assert forall|k: int| 0 <= k < all.len() implies !(#[trigger] all[k]).contains('\n') by {
        if k > 0 {
            lemma_reads_on_a_line(rows, k - 1, branches);
            lemma_no_feed("  "@, reads_at(rows, k - 1, false, branches));
        }
    }
    law_written_lines_read_back(all, Seq::empty());
    assert(as_lines(all) + Seq::<char>::empty() =~= as_lines(all));
    assert(lines(as_lines(all)).len() == all.len());
    assert(lines(as_lines(all))[1 + i] == without_cr(all[1 + i]));
    let g = if branches {
        gutter(rows, false)[i]
    } else {
        Seq::empty()
    };
    assert(all[1 + i] =~= "  "@ + g + rows[i].text@);
    assert("  "@ + Seq::<char>::empty() =~= "  "@);
}

/// Where the target has no such function, a listing says so; of a function that
/// is not there the size is told as unknown.
pub proof fn law_a_listing_tells_of_a_missing_function(symbol: Seq<char>, view: FnView, color: bool, branches: bool)
    ensures
        listing_text(symbol, None, color, branches) == as_lines(
            seq![listing_head(symbol, "?"@), "  <not found in target>"@],
        ),
        view.target is None ==> listing_text(symbol, Some(view), color, branches) == as_lines(
            seq![listing_head(symbol, digits(view.size as nat, 10)), "  <not found in target>"@],
        ),
{
    lemma_missing(symbol, "?"@);
    lemma_missing(symbol, digits(view.size as nat, 10));
}

proof fn lemma_missing(symbol: Seq<char>, size: Seq<char>)
    ensures
        "==== "@ + symbol + " (size "@ + size + ") ====\n"@ + "  <not found in target>\n"@ == as_lines(
            seq![listing_head(symbol, size), "  <not found in target>"@],
        ),
{
    reveal_strlit("  <not found in target>\n");
    reveal_strlit("  <not found in target>");
    reveal_strlit("\n");
    lemma_listing_head(symbol, size);
    let none = Seq::<Seq<char>>::empty();
    let head = listing_head(symbol, size);
    let last = "  <not found in target>"@;
    lemma_as_lines_more(none, head);
    lemma_as_lines_more(none.push(head), last);
    assert(seq![head, last] =~= none.push(head).push(last));
    assert(head + "\n"@ + "  <not found in target>\n"@ =~= as_lines(none) + head + "\n"@ + last + "\n"@);
}

/// Of the functions that go by a key the last is listed, and none where no
/// function goes by it.
pub proof fn law_the_last_function_of_a_key_is_listed(views: Seq<FnView>, key: Seq<char>)
    ensures
        match view_by_key(views, key, views.len()) {
            Some(view) => exists|k: int|
                0 <= k < views.len() && #[trigger] views[k] == view && key_of(views[k].name@) == key && forall|j: int|
                    k < j < views.len() ==> key_of((#[trigger] views[j]).name@) != key,
            None => forall|j: int| 0 <= j < views.len() ==> key_of((#[trigger] views[j]).name@) != key,
        },
{
    lemma_view_by_key(views, key, views.len());
}

proof fn lemma_view_by_key(views: Seq<FnView>, key: Seq<char>, n: nat)
    requires
        n <= views.len(),
    ensures
        match view_by_key(views, key, n) {
            Some(view) => exists|k: int|
                0 <= k < n && #[trigger] views[k] == view && key_of(views[k].name@) == key && forall|j: int|
                    k < j < n ==> key_of((#[trigger] views[j]).name@) != key,
            None => forall|j: int| 0 <= j < n ==> key_of((#[trigger] views[j]).name@) != key,
        },
    decreases n,
{
    if n > 0 {
        lemma_view_by_key(views, key, (n - 1) as nat);
        if key_of(views[n - 1].name@) == key {
            assert(views[n - 1] == view_by_key(views, key, n)->0);
        } else {
            match view_by_key(views, key, n) {
                Some(view) => {
                    let k = choose|k: int|
                        0 <= k < n - 1 && #[trigger] views[k] == view && key_of(views[k].name@) == key && forall|j: int|
                            k < j < n - 1 ==> key_of((#[trigger] views[j]).name@) != key;
                    assert forall|j: int| k < j < n implies key_of((#[trigger] views[j]).name@) != key by {
                        if j < n - 1 {
                        }
                    }
                    assert(views[k] == view);
                },
                None => {},
            }
        }
    }
}

} // verus!
