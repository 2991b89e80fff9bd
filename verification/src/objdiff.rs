//! What the diffing engine reports of a unit, as plain values, and everything
//! that is derived from it: which functions are shown, how a row reads, and how
//! much of a unit matches.
use vstd::prelude::*;

use crate::dev::{key_of, symbol_key};
use crate::num::{digits, digits_text, law_digits_tell_the_number, left_in, number_of};
use crate::order::{lemma_selects_more, selects};
use crate::style::{
    append_styled, escapes_end, is_escape, is_plain, lemma_plain_concat, lemma_styled_visible, lemma_visible_concat,
    lemma_visible_plain, styled, visible,
};
use crate::text::{
    append_repeated, begins_with, is_white_space, joined, lemma_first_of_is, lemma_joined_with_nothing,
    lemma_trim_end, lemma_trim_end_concat, opt_str, repeated, same_text, trim_end, trim_end_text,
};

verus! {

/// One rendered instruction line, with whether the diff considers it changed.
///
/// `text` and `colored` hold the same content; `colored` additionally carries
/// ANSI escapes. Both are kept because escapes inflate a string's length
/// without occupying columns, so padding must be measured against `text`.
pub struct Row {
    pub text: String,
    pub colored: String,
    pub changed: bool,
    /// When this row branches elsewhere: the destination row index and the
    /// engine's branch index, which selects the arrow's color.
    pub branch_to: Option<(usize, u32)>,
}

impl Row {
    /// What the row reads in the given color mode.
    pub open spec fn shown(self, color: bool) -> Seq<char> {
        if color {
            self.colored@
        } else {
            self.text@
        }
    }

    /// The rendered form for the given color mode.
    pub fn display(&self, color: bool) -> (r: &str)
        ensures
            r@ == self.shown(color),
    {
        if color {
            self.colored.as_str()
        } else {
            self.text.as_str()
        }
    }

    /// Printed column width, which the escapes in `colored` do not contribute
    /// to.
    pub fn width(&self) -> (n: usize)
        ensures
            n == self.text@.len(),
    {
        self.text.as_str().unicode_len()
    }
}

/// The engine's colors for the segments of a row.
#[derive(Clone, Copy, PartialEq, Eq, Structural)]
pub enum SegmentColor {
    Normal,
    Dim,
    Bright,
    DataFlow,
    Replace,
    Delete,
    Insert,
    Rotating(u8),
}

/// The escape for a segment color. Ordinary text has none, so that it keeps
/// the terminal's own foreground. Branches cycle through the six standard
/// hues, so that nested ones stay tellable apart.
pub open spec fn ansi(color: SegmentColor) -> Seq<char> {
    match color {
        SegmentColor::Normal => ""@,
        SegmentColor::Dim => "\x1b[2m"@,
        SegmentColor::Bright => "\x1b[97m"@,
        SegmentColor::DataFlow => "\x1b[96m"@,
        SegmentColor::Replace => "\x1b[36m"@,
        SegmentColor::Delete => "\x1b[31m"@,
        SegmentColor::Insert => "\x1b[32m"@,
        SegmentColor::Rotating(i) => hue(i as nat),
    }
}

/// The hue of branch `i`.
pub open spec fn hue(i: nat) -> Seq<char> {
    if i % 6 == 0 {
        "\x1b[35m"@
    } else if i % 6 == 1 {
        "\x1b[33m"@
    } else if i % 6 == 2 {
        "\x1b[34m"@
    } else if i % 6 == 3 {
        "\x1b[31m"@
    } else if i % 6 == 4 {
        "\x1b[32m"@
    } else {
        "\x1b[36m"@
    }
}

/// Maps the engine's semantic segment colors onto ANSI escapes.
pub fn ansi_for(color: SegmentColor) -> (r: &'static str)
    ensures
        r@ == ansi(color),
{
    match color {
        SegmentColor::Normal => "",
        SegmentColor::Dim => "\x1b[2m",
        SegmentColor::Bright => "\x1b[97m",
        SegmentColor::DataFlow => "\x1b[96m",
        SegmentColor::Replace => "\x1b[36m",
        SegmentColor::Delete => "\x1b[31m",
        SegmentColor::Insert => "\x1b[32m",
        SegmentColor::Rotating(i) => match i % 6 {
            0 => "\x1b[35m",
            1 => "\x1b[33m",
            2 => "\x1b[34m",
            3 => "\x1b[31m",
            4 => "\x1b[32m",
            _ => "\x1b[36m",
        },
    }
}

/// The escape for branch `branch_idx`, of which the engine's colors keep the
/// low eight bits.
pub open spec fn branch_ansi(branch_idx: u32) -> Seq<char> {
    hue((branch_idx % 256) as nat)
}

/// The color the engine assigns to a branch, so a drawn arrow matches the hue
/// it would have given its own marker.
pub fn branch_color(branch_idx: u32) -> (r: &'static str)
    ensures
        r@ == branch_ansi(branch_idx),
{
    ansi_for(SegmentColor::Rotating((branch_idx % 256) as u8))
}

/// Every segment color is one escape, but for the color of ordinary text,
/// which is none.
pub proof fn lemma_ansi_is_escape(color: SegmentColor)
    ensures
        color == SegmentColor::Normal ==> ansi(color).len() == 0,
        color != SegmentColor::Normal ==> is_escape(ansi(color)),
{
    reveal_strlit("");
    reveal_strlit("\x1b[2m");
    reveal_strlit("\x1b[97m");
    reveal_strlit("\x1b[96m");
    reveal_strlit("\x1b[36m");
    reveal_strlit("\x1b[31m");
    reveal_strlit("\x1b[32m");
    reveal_strlit("\x1b[33m");
    reveal_strlit("\x1b[34m");
    reveal_strlit("\x1b[35m");
    let e = ansi(color);
    if color != SegmentColor::Normal {
        lemma_first_of_is(e, 'm', e.len() - 1);
    }
}

/// Every branch color is one escape.
pub proof fn lemma_branch_ansi_is_escape(branch_idx: u32)
    ensures
        is_escape(branch_ansi(branch_idx)),
{
    lemma_ansi_is_escape(SegmentColor::Rotating((branch_idx % 256) as u8));
}

/// What one segment of a row says.
pub enum SegmentText {
    Basic(String),
    /// A source line number.
    Line(u32),
    Address(u64),
    Opcode(String),
    Argument(String),
    BranchDest(u64),
    BranchArrow,
    /// A symbol, by its name and, where it has one, its demangled name.
    Symbol(String, Option<String>),
    Addend(i64),
    /// A number of spaces.
    Spacing(u8),
    Eol,
}

/// One segment of a row: what it says, in which color, and the width it is
/// padded to.
pub struct Segment {
    pub text: SegmentText,
    pub color: SegmentColor,
    pub pad_to: u8,
}

/// A relocation addend in hexadecimal, with its sign; nothing for zero.
pub open spec fn addend_text(addend: int) -> Seq<char> {
    if addend > 0 {
        "+0x"@ + digits(addend as nat, 16)
    } else if addend < 0 {
        "-0x"@ + digits((-addend) as nat, 16)
    } else {
        Seq::empty()
    }
}

/// What a segment reads. Line numbers come from our build's debug info; the
/// delinked target has none, so they are left out, as is the end of the line.
pub open spec fn segment_text(t: SegmentText) -> Option<Seq<char>> {
    match t {
        SegmentText::Basic(s) => Some(s@),
        SegmentText::Line(_) => None,
        SegmentText::Address(addr) => Some(digits(addr as nat, 16).push(':')),
        SegmentText::Opcode(mnemonic) => Some(mnemonic@.push(' ')),
        SegmentText::Argument(arg) => Some(arg@),
        SegmentText::BranchDest(addr) => Some(digits(addr as nat, 16)),
        SegmentText::BranchArrow => Some("    "@),
        SegmentText::Symbol(name, demangled) => Some(
            match demangled {
                Some(d) => d@,
                None => name@,
            },
        ),
        SegmentText::Addend(addend) => Some(addend_text(addend as int)),
        SegmentText::Spacing(n) => Some(repeated(' ', n as nat)),
        SegmentText::Eol => None,
    }
}

/// The styled parts that one segment gives: its text, and after it, unstyled,
/// the spaces that pad it.
pub open spec fn segment_parts(s: Segment) -> Seq<(Seq<char>, Seq<char>)> {
    match segment_text(s.text) {
        Some(text) => if text.len() < s.pad_to {
            seq![(ansi(s.color), text), (Seq::<char>::empty(), repeated(' ', (s.pad_to - text.len()) as nat))]
        } else {
            seq![(ansi(s.color), text)]
        },
        None => Seq::empty(),
    }
}

/// The styled parts of the first `n` segments.
pub open spec fn row_parts(segments: Seq<Segment>, n: nat) -> Seq<(Seq<char>, Seq<char>)>
    decreases n,
{
    if n == 0 || n > segments.len() {
        Seq::empty()
    } else {
        row_parts(segments, (n - 1) as nat) + segment_parts(segments[n - 1])
    }
}

/// What a list of styled parts holds: of each its escape and its text.
pub open spec fn part_texts(parts: Seq<(&'static str, String)>) -> Seq<(Seq<char>, Seq<char>)> {
    Seq::new(parts.len(), |i: int| (parts[i].0@, parts[i].1@))
}

/// `parts` without the whitespace they end in: parts at the end with nothing to
/// show are dropped, and the last one that is left is trimmed.
pub open spec fn trim_parts(parts: Seq<(Seq<char>, Seq<char>)>) -> Seq<(Seq<char>, Seq<char>)>
    decreases parts.len(),
{
    if parts.len() == 0 {
        parts
    } else {
        let last = parts.last();
        let trimmed = trim_end(last.1);
        if trimmed.len() == 0 {
            trim_parts(parts.drop_last())
        } else {
            parts.drop_last().push((last.0, trimmed))
        }
    }
}

/// The texts of `parts`, one after the other.
pub open spec fn plain_text(parts: Seq<(Seq<char>, Seq<char>)>) -> Seq<char>
    decreases parts.len(),
{
    if parts.len() == 0 {
        Seq::empty()
    } else {
        plain_text(parts.drop_last()) + parts.last().1
    }
}

/// The texts of `parts`, each in its escape.
pub open spec fn colored_text(parts: Seq<(Seq<char>, Seq<char>)>) -> Seq<char>
    decreases parts.len(),
{
    if parts.len() == 0 {
        Seq::empty()
    } else {
        colored_text(parts.drop_last()) + styled(parts.last().1, parts.last().0, true)
    }
}

/// Builds a row's plain and colored forms from styled parts, trimming trailing
/// whitespace *before* escapes are woven in.
///
/// Trimming the finished colored string does not work: a segment like the
/// branch arrow renders as `" ~> "`, so its trailing space ends up inside the
/// escape wrap and the reset sequence stands after it. The colored row would
/// then be one column wider than the plain one and the side-by-side separator
/// would drift.
pub fn assemble(parts: Vec<(&'static str, String)>) -> (r: (String, String))
    ensures
        r.0@ == plain_text(trim_parts(part_texts(parts@))),
        r.1@ == colored_text(trim_parts(part_texts(parts@))),
{
    let mut parts = parts;
    let ghost all = part_texts(parts@);
    let mut done = false;
    while !done && parts.len() > 0
        invariant
            !done ==> trim_parts(part_texts(parts@)) == trim_parts(all),
            done ==> part_texts(parts@) == trim_parts(all),
        decreases parts@.len(), if done { 0int } else { 1 },
    {
        let n = parts.len() - 1;
        let trimmed = trim_end_text(parts[n].1.as_str());
        let ghost was = part_texts(parts@);
        assert(was.last().1 == parts@[n as int].1@);
        let escape = parts[n].0;
        let blank = trimmed.as_str().is_empty();
        parts.pop();
        assert(part_texts(parts@) =~= was.drop_last());
        if !blank {
            parts.push((escape, trimmed));
            assert(part_texts(parts@) =~= trim_parts(all));
            done = true;
        }
    }
    let ghost kept = part_texts(parts@);
    assert(kept =~= trim_parts(all)) by {
        if !done {
            assert(kept.len() == 0);
            assert(trim_parts(kept) == kept);
        }
    }
    let mut text = String::new();
    let mut colored = String::new();
    let n = parts.len();
    let mut i: usize = 0;
    assert(kept.take(0) =~= Seq::empty());
    while i < n
        invariant
            i <= n,
            n == parts@.len(),
            kept == part_texts(parts@),
            text@ == plain_text(kept.take(i as int)),
            colored@ == colored_text(kept.take(i as int)),
        decreases n - i,
    {
        let part = &parts[i];
        assert(kept.take(i + 1).drop_last() =~= kept.take(i as int));
        assert(kept.take(i + 1).last() == (part.0@, part.1@));
        text.append(part.1.as_str());
        append_styled(&mut colored, part.1.as_str(), part.0, true);
        i = i + 1;
    }
    assert(kept.take(n as int) =~= kept);
    (text, colored)
}

/// What a segment reads, where it reads anything.
fn render_segment(t: &SegmentText) -> (r: Option<String>)
    ensures
        crate::text::opt_text(r) == segment_text(*t),
{
    match t {
        SegmentText::Basic(s) => Some(s.as_str().to_owned()),
        SegmentText::Line(_) => None,
        SegmentText::Address(addr) => {
            let mut s = digits_text(*addr, 16);
            s.push(':');
            Some(s)
        },
        SegmentText::Opcode(mnemonic) => {
            let mut s = mnemonic.as_str().to_owned();
            s.push(' ');
            Some(s)
        },
        SegmentText::Argument(arg) => Some(arg.as_str().to_owned()),
        SegmentText::BranchDest(addr) => Some(digits_text(*addr, 16)),
        // The engine emits an arrow both before the mnemonic (this row is a
        // branch destination) and after the operands (this row branches away).
        // A connected gutter is drawn instead, but the four columns stay so the
        // mnemonic is aligned with rows that have no branch.
        SegmentText::BranchArrow => Some("    ".to_owned()),
        SegmentText::Symbol(name, demangled) => match demangled {
            Some(d) => Some(d.as_str().to_owned()),
            None => Some(name.as_str().to_owned()),
        },
        SegmentText::Addend(addend) => {
            let a = *addend;
            let mut s = String::new();
            if a > 0 {
                s.append("+0x");
                s.append(digits_text(a as u64, 16).as_str());
                assert(s@ =~= addend_text(a as int));
            } else if a < 0 {
                s.append("-0x");
                let magnitude: u64 = if a == i64::MIN {
                    0x8000_0000_0000_0000
                } else {
                    (-a) as u64
                };
                s.append(digits_text(magnitude, 16).as_str());
                assert(s@ =~= addend_text(a as int));
            }
            Some(s)
        },
        SegmentText::Spacing(n) => {
            let mut s = String::new();
            append_repeated(&mut s, ' ', *n as usize);
            assert(s@ =~= repeated(' ', *n as nat));
            Some(s)
        },
        SegmentText::Eol => None,
    }
}

/// A row's plain and colored forms, from its segments.
pub open spec fn row_text(segments: Seq<Segment>) -> Seq<char> {
    plain_text(trim_parts(row_parts(segments, segments.len())))
}

/// A row's colored form.
pub open spec fn row_colored(segments: Seq<Segment>) -> Seq<char> {
    colored_text(trim_parts(row_parts(segments, segments.len())))
}

/// One instruction of a symbol as the engine displays it.
pub struct DiffRow {
    pub segments: Vec<Segment>,
    pub changed: bool,
    pub branch_to: Option<(usize, u32)>,
}

/// Renders one instruction row to text. The address is symbol-relative.
pub fn render_row(row: &DiffRow) -> (r: Row)
    ensures
        r.text@ == row_text(row.segments@),
        r.colored@ == row_colored(row.segments@),
        r.changed == row.changed,
        r.branch_to == row.branch_to,
{
    let mut parts: Vec<(&'static str, String)> = Vec::new();
    let ghost segments = row.segments@;
    let n = row.segments.len();
    let mut i: usize = 0;
    assert(part_texts(parts@) =~= row_parts(segments, 0));
    while i < n
        invariant
            i <= n,
            n == segments.len(),
            segments == row.segments@,
            part_texts(parts@) == row_parts(segments, i as nat),
        decreases n - i,
    {
        let segment = &row.segments[i];
        let ghost before = part_texts(parts@);
        match render_segment(&segment.text) {
            Some(rendered) => {
                // Padding is unstyled, and counts in columns.
                let width = rendered.as_str().unicode_len();
                let ghost text = rendered@;
                parts.push((ansi_for(segment.color), rendered));
                assert(part_texts(parts@) =~= before.push((ansi(segment.color), text)));
                if width < segment.pad_to as usize {
                    let mut pad = String::new();
                    append_repeated(&mut pad, ' ', segment.pad_to as usize - width);
                    assert(pad@ =~= repeated(' ', (segment.pad_to - width) as nat));
                    proof {
                        reveal_strlit("");
                    }
                    assert(""@ =~= Seq::<char>::empty());
                    let ghost filler = pad@;
                    let ghost mid = part_texts(parts@);
                    parts.push(("", pad));
                    assert(part_texts(parts@) =~= mid.push((""@, filler)));
                }
                assert(part_texts(parts@) =~= before + segment_parts(*segment));
            },
            None => {
                assert(before + segment_parts(*segment) =~= before);
            },
        }
        i = i + 1;
    }
    let (text, colored) = assemble(parts);
    Row { text, colored, changed: row.changed, branch_to: row.branch_to }
}

/// Whether each of `parts` is text without escapes in one escape or none.
pub open spec fn are_styled(parts: Seq<(Seq<char>, Seq<char>)>) -> bool {
    forall|i: int|
        0 <= i < parts.len() ==> is_plain((#[trigger] parts[i]).1) && (parts[i].0.len() == 0 || is_escape(parts[i].0))
}

proof fn lemma_colored_text(parts: Seq<(Seq<char>, Seq<char>)>)
    requires
        are_styled(parts),
    ensures
        visible(colored_text(parts)) == plain_text(parts),
        escapes_end(colored_text(parts)),
        is_plain(plain_text(parts)),
    decreases parts.len(),
{
    if parts.len() == 0 {
        lemma_visible_plain(Seq::<char>::empty());
    } else {
        let last = parts.last();
        assert(last == parts[parts.len() - 1]);
        assert(are_styled(parts.drop_last())) by {
            assert forall|i: int| 0 <= i < parts.drop_last().len() implies is_plain(
                (#[trigger] parts.drop_last()[i]).1,
            ) && (parts.drop_last()[i].0.len() == 0 || is_escape(parts.drop_last()[i].0)) by {
                assert(parts.drop_last()[i] == parts[i]);
            }
        }
        lemma_colored_text(parts.drop_last());
        lemma_visible_plain(last.1);
        if last.0.len() > 0 {
            lemma_styled_visible(last.1, last.0, true);
        }
        lemma_visible_concat(colored_text(parts.drop_last()), styled(last.1, last.0, true));
        lemma_plain_concat(plain_text(parts.drop_last()), last.1);
    }
}

proof fn lemma_trim_parts_styled(parts: Seq<(Seq<char>, Seq<char>)>)
    requires
        are_styled(parts),
    ensures
        are_styled(trim_parts(parts)),
    decreases parts.len(),
{
    if parts.len() > 0 {
        let last = parts.last();
        assert(last == parts[parts.len() - 1]);
        let trimmed = trim_end(last.1);
        assert(are_styled(parts.drop_last())) by {
            assert forall|i: int| 0 <= i < parts.drop_last().len() implies is_plain(
                (#[trigger] parts.drop_last()[i]).1,
            ) && (parts.drop_last()[i].0.len() == 0 || is_escape(parts.drop_last()[i].0)) by {
                assert(parts.drop_last()[i] == parts[i]);
            }
        }
        lemma_trim_parts_styled(parts.drop_last());
        lemma_trim_end(last.1);
        if trimmed.contains('\x1b') {
            let k = choose|k: int| 0 <= k < trimmed.len() && trimmed[k] == '\x1b';
            assert(last.1[k] == '\x1b');
        }
        let kept = parts.drop_last().push((last.0, trimmed));
        assert forall|i: int| 0 <= i < kept.len() implies is_plain((#[trigger] kept[i]).1) && (kept[i].0.len() == 0
            || is_escape(kept[i].0)) by {
            if i < parts.len() - 1 {
                assert(kept[i] == parts.drop_last()[i]);
            }
        }
    }
}

/// Stripping the escapes from an assembled row's colored form gives back its
/// plain form, whatever the mix of parts.
pub proof fn law_assembled_color_strips_to_plain(parts: Seq<(Seq<char>, Seq<char>)>)
    requires
        are_styled(parts),
    ensures
        visible(colored_text(trim_parts(parts))) == plain_text(trim_parts(parts)),
        escapes_end(colored_text(trim_parts(parts))),
        is_plain(plain_text(trim_parts(parts))),
{
    lemma_trim_parts_styled(parts);
    lemma_colored_text(trim_parts(parts));
}

/// An assembled row is the parts' text without its trailing whitespace, and a row
/// that is blank has no escapes either.
pub proof fn law_assembled_row_is_trimmed(parts: Seq<(Seq<char>, Seq<char>)>)
    ensures
        plain_text(trim_parts(parts)) == trim_end(plain_text(parts)),
        plain_text(trim_parts(parts)).len() == 0 ==> colored_text(trim_parts(parts)).len() == 0,
    decreases parts.len(),
{
    if parts.len() > 0 {
        let last = parts.last();
        let rest = parts.drop_last();
        law_assembled_row_is_trimmed(rest);
        lemma_trim_end_concat(plain_text(rest), last.1);
        let trimmed = trim_end(last.1);
        if trimmed.len() > 0 {
            let kept = rest.push((last.0, trimmed));
            assert(kept.drop_last() =~= rest);
        }
    }
}

/// Whether a row's forms agree: without escapes the colored one reads as the
/// plain one, neither ends in whitespace, and a blank row holds no escapes.
pub open spec fn forms_agree(text: Seq<char>, colored: Seq<char>) -> bool {
    &&& is_plain(text)
    &&& visible(colored) == text
    &&& escapes_end(colored)
    &&& trim_end(text) == text
    &&& text.len() == 0 ==> colored.len() == 0
}

/// A rendered row's plain and colored forms agree, where its segments hold no
/// escapes.
pub proof fn law_row_forms_agree(segments: Seq<Segment>)
    requires
        forall|i: int|
            0 <= i < segments.len() ==> match segment_text((#[trigger] segments[i]).text) {
                Some(text) => is_plain(text),
                None => true,
            },
    ensures
        forms_agree(row_text(segments), row_colored(segments)),
{
    let parts = row_parts(segments, segments.len());
    lemma_row_parts(segments, segments.len());
    law_assembled_color_strips_to_plain(parts);
    law_assembled_row_is_trimmed(parts);
    lemma_trim_end(plain_text(parts));
}

proof fn lemma_row_parts(segments: Seq<Segment>, n: nat)
    requires
        n <= segments.len(),
        forall|i: int|
            0 <= i < segments.len() ==> match segment_text((#[trigger] segments[i]).text) {
                Some(text) => is_plain(text),
                None => true,
            },
    ensures
        are_styled(row_parts(segments, n)),
    decreases n,
{
    if n > 0 {
        lemma_row_parts(segments, (n - 1) as nat);
        let before = row_parts(segments, (n - 1) as nat);
        let s = segments[n - 1];
        let added = segment_parts(s);
        lemma_ansi_is_escape(s.color);
        let parts = row_parts(segments, n);
        assert forall|i: int| 0 <= i < parts.len() implies is_plain((#[trigger] parts[i]).1) && (parts[i].0.len() == 0
            || is_escape(parts[i].0)) by {
            if i < before.len() {
                assert(parts[i] == before[i]);
            } else {
                assert(parts[i] == added[i - before.len()]);
            }
        }
    }
}

/// What a row holds.
pub struct RowFacts {
    pub text: Seq<char>,
    pub colored: Seq<char>,
    pub changed: bool,
    pub branch_to: Option<(usize, u32)>,
}

impl View for Row {
    type V = RowFacts;

    open spec fn view(&self) -> RowFacts {
        RowFacts { text: self.text@, colored: self.colored@, changed: self.changed, branch_to: self.branch_to }
    }
}

/// What the rows of a list hold.
pub open spec fn row_facts(rows: Seq<Row>) -> Seq<RowFacts> {
    Seq::new(rows.len(), |i: int| rows[i]@)
}

/// What the engine's rows of a symbol read.
pub open spec fn rendered(rows: Seq<DiffRow>) -> Seq<RowFacts> {
    Seq::new(
        rows.len(),
        |i: int|
            RowFacts {
                text: row_text(rows[i].segments@),
                colored: row_colored(rows[i].segments@),
                changed: rows[i].changed,
                branch_to: rows[i].branch_to,
            },
    )
}

/// Renders every instruction row of a symbol.
pub fn render_symbol(rows: &Vec<DiffRow>) -> (r: Vec<Row>)
    ensures
        row_facts(r@) == rendered(rows@),
{
    let n = rows.len();
    let mut out: Vec<Row> = Vec::new();
    let mut i: usize = 0;
    while i < n
        invariant
            i <= n,
            n == rows@.len(),
            out@.len() == i,
            forall|j: int| 0 <= j < i ==> (#[trigger] out@[j])@ == rendered(rows@)[j],
        decreases n - i,
    {
        out.push(render_row(&rows[i]));
        i = i + 1;
    }
    assert(row_facts(out@) =~= rendered(rows@));
    out
}

/// A match percentage: its single-precision bits, which tell whether it is
/// full, and how it reads with two decimals.
pub struct Percent {
    pub bits: u32,
    pub text: String,
}

/// What a percentage holds.
pub struct PercentFacts {
    pub bits: u32,
    pub text: Seq<char>,
}

impl View for Percent {
    type V = PercentFacts;

    open spec fn view(&self) -> PercentFacts {
        PercentFacts { bits: self.bits, text: self.text@ }
    }
}

/// The bits of one hundred.
pub const FULL_BITS: u32 = 0x42c8_0000;

/// The bits of infinity, above which stand those of no number and of the
/// negative numbers.
pub const INFINITE_BITS: u32 = 0x7f80_0000;

/// Whether the number with these bits is at least one hundred. The bits of
/// positive numbers are ordered as the numbers are.
pub open spec fn is_complete(bits: u32) -> bool {
    FULL_BITS <= bits <= INFINITE_BITS
}

/// Whether the number with these bits is at least one hundred.
pub fn reaches_full(bits: u32) -> (r: bool)
    ensures
        r == is_complete(bits),
{
    FULL_BITS <= bits && bits <= INFINITE_BITS
}

/// What an optional percentage holds.
pub open spec fn opt_percent(p: Option<Percent>) -> Option<PercentFacts> {
    match p {
        Some(q) => Some(q@),
        None => None,
    }
}

/// How a match percentage reads.
pub open spec fn pct_text(p: Option<PercentFacts>) -> Seq<char> {
    match p {
        Some(q) => q.text,
        None => "-"@,
    }
}

/// A match percentage, or `-` when the side is absent or unscored.
pub fn fmt_pct(match_percent: Option<&Percent>) -> (r: String)
    ensures
        r@ == pct_text(
            match match_percent {
                Some(p) => Some(p@),
                None => None,
            },
        ),
{
    match match_percent {
        Some(p) => p.text.as_str().to_owned(),
        None => "-".to_owned(),
    }
}

fn copy_percent(p: &Option<Percent>) -> (r: Option<Percent>)
    ensures
        opt_percent(r) == opt_percent(*p),
{
    match p {
        Some(q) => Some(Percent { bits: q.bits, text: q.text.as_str().to_owned() }),
        None => None,
    }
}

/// Which of a unit's two objects is meant.
#[derive(Clone, Copy, PartialEq, Eq, Structural)]
pub enum DiffSide {
    /// The delinked original.
    Target,
    /// Our build.
    Base,
}

/// What a symbol stands for.
#[derive(Clone, Copy, PartialEq, Eq, Structural)]
pub enum SymbolKind {
    Unknown,
    Function,
    Object,
    Section,
}

/// One symbol of an object.
pub struct SymbolInfo {
    pub name: String,
    pub kind: SymbolKind,
    /// The index of the section that holds it.
    pub section: Option<usize>,
    pub address: u64,
    pub size: u64,
    pub hidden: bool,
    pub ignored: bool,
}

/// What a section holds.
#[derive(Clone, Copy, PartialEq, Eq, Structural)]
pub enum SectionKind {
    Unknown,
    Code,
    Data,
    Bss,
    Common,
}

/// One section of an object.
pub struct SectionInfo {
    pub kind: SectionKind,
    pub address: u64,
    pub size: u64,
}

/// One object: its symbols and its sections.
pub struct ObjectSide {
    pub symbols: Vec<SymbolInfo>,
    pub sections: Vec<SectionInfo>,
}

/// How the diff scored one symbol, which symbol of the other object it was
/// matched to, and its instruction rows or what kept them from being displayed.
pub struct SymbolScore {
    pub match_percent: Option<Percent>,
    pub target_symbol: Option<usize>,
    pub rows: Result<Vec<DiffRow>, String>,
}

/// How the diff scored an object: its symbols, and of each section the bits of
/// its match percentage.
pub struct ObjectScores {
    pub symbols: Vec<SymbolScore>,
    pub sections: Vec<Option<u32>>,
}

/// A unit's target (delinked original) and base (our build) objects, plus the
/// diff between them. Either side may be absent: `base` is `None` before the
/// unit has ever been compiled, and callers report that rather than crashing.
pub struct UnitDiff {
    pub target: Option<ObjectSide>,
    pub base: Option<ObjectSide>,
    pub target_scores: Option<ObjectScores>,
    pub base_scores: Option<ObjectScores>,
}

/// The other side.
pub open spec fn opposite(side: DiffSide) -> DiffSide {
    match side {
        DiffSide::Target => DiffSide::Base,
        DiffSide::Base => DiffSide::Target,
    }
}

/// The other side.
pub fn other_side(side: DiffSide) -> (r: DiffSide)
    ensures
        r == opposite(side),
{
    match side {
        DiffSide::Target => DiffSide::Base,
        DiffSide::Base => DiffSide::Target,
    }
}

/// One side of a function, rendered and scored.
pub struct SideView {
    pub match_percent: Option<Percent>,
    pub rows: Vec<Row>,
}

/// What one side of a function holds.
pub struct SideFacts {
    pub match_percent: Option<PercentFacts>,
    pub rows: Seq<RowFacts>,
}

impl View for SideView {
    type V = SideFacts;

    open spec fn view(&self) -> SideFacts {
        SideFacts { match_percent: opt_percent(self.match_percent), rows: row_facts(self.rows@) }
    }
}

/// What an optional side holds.
pub open spec fn opt_side(s: Option<SideView>) -> Option<SideFacts> {
    match s {
        Some(v) => Some(v@),
        None => None,
    }
}

/// A function as seen from both sides. Either side may be absent: the function
/// exists only in the target (not yet written), or only in our build (not in
/// the original).
pub struct FnView {
    pub name: String,
    pub size: u64,
    pub target: Option<SideView>,
    pub base: Option<SideView>,
}

/// What a function's view holds.
pub struct FnFacts {
    pub name: Seq<char>,
    pub size: u64,
    pub target: Option<SideFacts>,
    pub base: Option<SideFacts>,
}

impl View for FnView {
    type V = FnFacts;

    open spec fn view(&self) -> FnFacts {
        FnFacts { name: self.name@, size: self.size, target: opt_side(self.target), base: opt_side(self.base) }
    }
}

/// What the views of a list hold.
pub open spec fn view_facts(views: Seq<FnView>) -> Seq<FnFacts> {
    Seq::new(views.len(), |i: int| views[i]@)
}

/// Why a unit's functions cannot be shown.
#[derive(Debug)]
pub enum ViewError {
    /// The diff has no entry for the symbol of this name.
    NoScore(String),
    /// The diff has no entry for the matched symbol of this index.
    NoMatch(usize),
    /// An instruction could not be displayed.
    Display(String),
}

/// What a view error holds.
pub enum ViewErrorFacts {
    NoScore(Seq<char>),
    NoMatch(usize),
    Display(Seq<char>),
}

impl View for ViewError {
    type V = ViewErrorFacts;

    open spec fn view(&self) -> ViewErrorFacts {
        match self {
            ViewError::NoScore(name) => ViewErrorFacts::NoScore(name@),
            ViewError::NoMatch(idx) => ViewErrorFacts::NoMatch(*idx),
            ViewError::Display(e) => ViewErrorFacts::Display(e@),
        }
    }
}

/// What a view error says.
pub open spec fn view_error_text(e: ViewErrorFacts) -> Seq<char> {
    match e {
        ViewErrorFacts::NoScore(name) => "diff has no entry for symbol "@ + name,
        ViewErrorFacts::NoMatch(idx) => "diff has no entry for matched symbol "@ + digits(idx as nat, 10),
        ViewErrorFacts::Display(e) => e,
    }
}

impl ViewError {
    /// What the error says.
    pub fn message(&self) -> (r: String)
        ensures
            r@ == view_error_text(self@),
    {
        match self {
            ViewError::NoScore(name) => {
                let mut s = String::from_str("diff has no entry for symbol ");
                s.append(name.as_str());
                s
            },
            ViewError::NoMatch(idx) => {
                let mut s = String::from_str("diff has no entry for matched symbol ");
                s.append(digits_text(*idx as u64, 10).as_str());
                s
            },
            ViewError::Display(e) => e.as_str().to_owned(),
        }
    }
}

/// One side of a function as its score gives it.
pub open spec fn side_facts(score: SymbolScore) -> Result<SideFacts, ViewErrorFacts> {
    match score.rows {
        Ok(rows) => Ok(SideFacts { match_percent: opt_percent(score.match_percent), rows: rendered(rows@) }),
        Err(e) => Err(ViewErrorFacts::Display(e@)),
    }
}

/// The opposite side of a function, where the engine matched it to a symbol
/// there.
pub open spec fn far_facts(score: SymbolScore, far: Option<ObjectScores>) -> Result<
    Option<SideFacts>,
    ViewErrorFacts,
> {
    match (score.target_symbol, far) {
        (Some(idx), Some(scores)) => if idx >= scores.symbols@.len() {
            Err(ViewErrorFacts::NoMatch(idx))
        } else {
            match side_facts(scores.symbols@[idx as int]) {
                Ok(facts) => Ok(Some(facts)),
                Err(e) => Err(e),
            }
        },
        _ => Ok(None),
    }
}

/// The function that symbol `i` of the driving side is.
pub open spec fn function_at(
    obj: ObjectSide,
    scores: ObjectScores,
    far: Option<ObjectScores>,
    side: DiffSide,
    i: int,
) -> Result<FnFacts, ViewErrorFacts> {
    let sym = obj.symbols@[i];
    if i >= scores.symbols@.len() {
        Err(ViewErrorFacts::NoScore(sym.name@))
    } else {
        match side_facts(scores.symbols@[i]) {
            Err(e) => Err(e),
            Ok(near) => match far_facts(scores.symbols@[i], far) {
                Err(e) => Err(e),
                Ok(other) => Ok(
                    match side {
                        DiffSide::Target => FnFacts {
                            name: sym.name@,
                            size: sym.size,
                            target: Some(near),
                            base: other,
                        },
                        DiffSide::Base => FnFacts {
                            name: sym.name@,
                            size: sym.size,
                            target: other,
                            base: Some(near),
                        },
                    },
                ),
            },
        }
    }
}

/// Whether a symbol is a function that was asked for, by its key or as one of
/// all.
pub open spec fn is_wanted(sym: SymbolInfo, symbol: Option<Seq<char>>) -> bool {
    sym.kind == SymbolKind::Function && match symbol {
        Some(name) => key_of(sym.name@) == key_of(name),
        None => true,
    }
}

/// The wanted functions among the first `n` symbols of the driving side, in
/// order, or what is wrong with the first that cannot be shown.
pub open spec fn functions_of(
    obj: ObjectSide,
    scores: ObjectScores,
    far: Option<ObjectScores>,
    side: DiffSide,
    symbol: Option<Seq<char>>,
    n: nat,
) -> Result<Seq<FnFacts>, ViewErrorFacts>
    decreases n,
{
    if n == 0 {
        Ok(Seq::empty())
    } else {
        match functions_of(obj, scores, far, side, symbol, (n - 1) as nat) {
            Err(e) => Err(e),
            Ok(views) => if !is_wanted(obj.symbols@[n - 1], symbol) {
                Ok(views)
            } else {
                match function_at(obj, scores, far, side, n - 1) {
                    Err(e) => Err(e),
                    Ok(view) => Ok(views.push(view)),
                }
            },
        }
    }
}

fn side_view(score: &SymbolScore) -> (r: Result<SideView, ViewError>)
    ensures
        match side_facts(*score) {
            Ok(facts) => r is Ok && r->Ok_0@ == facts,
            Err(e) => r is Err && r->Err_0@ == e,
        },
{
    match &score.rows {
        Ok(rows) => Ok(SideView { match_percent: copy_percent(&score.match_percent), rows: render_symbol(rows) }),
        Err(e) => Err(ViewError::Display(e.as_str().to_owned())),
    }
}

fn far_view(score: &SymbolScore, far: Option<&ObjectScores>) -> (r: Result<Option<SideView>, ViewError>)
    ensures
        match far_facts(
            *score,
            match far {
                Some(f) => Some(*f),
                None => None,
            },
        ) {
            Ok(facts) => r is Ok && opt_side(r->Ok_0) == facts,
            Err(e) => r is Err && r->Err_0@ == e,
        },
{
    match (score.target_symbol, far) {
        (Some(idx), Some(scores)) => {
            if idx >= scores.symbols.len() {
                return Err(ViewError::NoMatch(idx));
            }
            match side_view(&scores.symbols[idx]) {
                Ok(view) => Ok(Some(view)),
                Err(e) => Err(e),
            }
        },
        _ => Ok(None),
    }
}

fn function_view(
    obj: &ObjectSide,
    scores: &ObjectScores,
    far: Option<&ObjectScores>,
    side: DiffSide,
    i: usize,
) -> (r: Result<FnView, ViewError>)
    requires
        i < obj.symbols@.len(),
    ensures
        match function_at(
            *obj,
            *scores,
            match far {
                Some(f) => Some(*f),
                None => None,
            },
            side,
            i as int,
        ) {
            Ok(facts) => r is Ok && r->Ok_0@ == facts,
            Err(e) => r is Err && r->Err_0@ == e,
        },
{
    let sym = &obj.symbols[i];
    if i >= scores.symbols.len() {
        return Err(ViewError::NoScore(sym.name.as_str().to_owned()));
    }
    let near = match side_view(&scores.symbols[i]) {
        Ok(view) => view,
        Err(e) => return Err(e),
    };
    let other = match far_view(&scores.symbols[i], far) {
        Ok(view) => view,
        Err(e) => return Err(e),
    };
    let (target, base) = match side {
        DiffSide::Target => (Some(near), other),
        DiffSide::Base => (other, Some(near)),
    };
    Ok(FnView { name: sym.name.as_str().to_owned(), size: sym.size, target, base })
}

impl UnitDiff {
    /// The object and the scores of one side, where it has both.
    pub open spec fn side_of(self, side: DiffSide) -> Option<(ObjectSide, ObjectScores)> {
        let (obj, scores) = match side {
            DiffSide::Target => (self.target, self.target_scores),
            DiffSide::Base => (self.base, self.base_scores),
        };
        match (obj, scores) {
            (Some(o), Some(d)) => Some((o, d)),
            _ => None,
        }
    }

    /// The object and diff for one side, paired so a symbol index resolves
    /// against the object it came from.
    pub fn side(&self, side: DiffSide) -> (r: Option<(&ObjectSide, &ObjectScores)>)
        ensures
            match r {
                Some(pair) => self.side_of(side) == Some((*pair.0, *pair.1)),
                None => self.side_of(side) is None,
            },
    {
        let (obj, scores) = match side {
            DiffSide::Target => (&self.target, &self.target_scores),
            DiffSide::Base => (&self.base, &self.base_scores),
        };
        match (obj, scores) {
            (Some(o), Some(d)) => Some((o, d)),
            _ => None,
        }
    }

    /// The scores of one side, where it has an object too.
    pub open spec fn scores_of(self, side: DiffSide) -> Option<ObjectScores> {
        match self.side_of(side) {
            Some(pair) => Some(pair.1),
            None => None,
        }
    }

    /// The unit's functions. The target drives; where it is absent the base
    /// does, so that a unit with no delinked object still renders something
    /// useful.
    pub open spec fn functions(self, symbol: Option<Seq<char>>) -> Result<Seq<FnFacts>, ViewErrorFacts> {
        match self.side_of(DiffSide::Target) {
            Some((o, d)) => functions_of(
                o,
                d,
                self.scores_of(DiffSide::Base),
                DiffSide::Target,
                symbol,
                o.symbols@.len(),
            ),
            None => match self.side_of(DiffSide::Base) {
                Some((o, d)) => functions_of(o, d, None, DiffSide::Base, symbol, o.symbols@.len()),
                None => Ok(Seq::empty()),
            },
        }
    }

    /// Builds rendered views of the unit's functions: one named `symbol`, or
    /// every function in the target when `symbol` is `None`.
    ///
    /// Sides are paired through the engine's own symbol matching rather than by
    /// re-matching names, so a renamed-but-matched symbol still lines up.
    pub fn function_views(&self, symbol: Option<&str>) -> (r: Result<Vec<FnView>, ViewError>)
        ensures
            match self.functions(opt_str(symbol)) {
                Ok(facts) => r is Ok && view_facts(r->Ok_0@) == facts,
                Err(e) => r is Err && r->Err_0@ == e,
            },
    {
        let want = match symbol {
            Some(name) => Some(symbol_key(name)),
            None => None,
        };
        let (obj, scores, side) = match self.side(DiffSide::Target) {
            Some((o, d)) => (o, d, DiffSide::Target),
            None => match self.side(DiffSide::Base) {
                Some((o, d)) => (o, d, DiffSide::Base),
                None => {
                    let none: Vec<FnView> = Vec::new();
                    assert(view_facts(none@) =~= Seq::empty());
                    return Ok(none);
                },
            },
        };
        let far = match self.side(other_side(side)) {
            Some((_, d)) => Some(d),
            None => None,
        };
        let ghost other = match far {
            Some(f) => Some(*f),
            None => None,
        };
        let ghost name = opt_str(symbol);
        let n = obj.symbols.len();
        let mut views: Vec<FnView> = Vec::new();
        let mut i: usize = 0;
        assert(view_facts(views@) =~= Seq::empty());
        assert(self.functions(name) == functions_of(*obj, *scores, other, side, name, n as nat));
        while i < n
            invariant
                i <= n,
                n == obj.symbols@.len(),
                name == opt_str(symbol),
                want is Some <==> name is Some,
                want is Some ==> want->0@ == key_of(name->0),
                other == match far {
                    Some(f) => Some(*f),
                    None => None,
                },
                functions_of(*obj, *scores, other, side, name, i as nat) == Ok::<Seq<FnFacts>, ViewErrorFacts>(
                    view_facts(views@),
                ),
                self.functions(name) == functions_of(*obj, *scores, other, side, name, n as nat),
            decreases n - i,
        {
            let sym = &obj.symbols[i];
            let wanted = match sym.kind {
                SymbolKind::Function => match &want {
                    Some(w) => same_text(symbol_key(sym.name.as_str()).as_str(), w.as_str()),
                    None => true,
                },
                _ => false,
            };
            assert(wanted == is_wanted(*sym, name));
            if wanted {
                match function_view(obj, scores, far, side, i) {
                    Ok(view) => {
                        let ghost before = views@;
                        let ghost facts = view@;
                        views.push(view);
                        assert(view_facts(views@) =~= view_facts(before).push(facts));
                    },
                    Err(e) => {
                        proof {
                            lemma_first_error(*obj, *scores, other, side, name, (i + 1) as nat, n as nat);
                        }
                        return Err(e);
                    },
                }
            }
            i = i + 1;
        }
        Ok(views)
    }
}

/// The first function that cannot be shown decides.
proof fn lemma_first_error(
    obj: ObjectSide,
    scores: ObjectScores,
    far: Option<ObjectScores>,
    side: DiffSide,
    symbol: Option<Seq<char>>,
    m: nat,
    n: nat,
)
    requires
        m <= n,
        functions_of(obj, scores, far, side, symbol, m) is Err,
    ensures
        functions_of(obj, scores, far, side, symbol, n) == functions_of(obj, scores, far, side, symbol, m),
    decreases n,
{
    if m < n {
        lemma_first_error(obj, scores, far, side, symbol, m, (n - 1) as nat);
    }
}

/// A requested symbol shows only functions under its key, and where there is a
/// target every function shown has a target side.
pub proof fn law_only_the_requested_function_is_shown(unit: UnitDiff, name: Seq<char>, k: int)
    requires
        unit.functions(Some(name)) is Ok,
        0 <= k < unit.functions(Some(name))->Ok_0.len(),
    ensures
        key_of(unit.functions(Some(name))->Ok_0[k].name) == key_of(name),
        unit.side_of(DiffSide::Target) is Some ==> unit.functions(Some(name))->Ok_0[k].target is Some,
{
    match unit.side_of(DiffSide::Target) {
        Some((o, d)) => {
            let far = unit.scores_of(DiffSide::Base);
            lemma_functions_of(o, d, far, DiffSide::Target, Some(name), o.symbols@.len(), k);
        },
        None => {
            let (o, d) = unit.side_of(DiffSide::Base)->0;
            lemma_functions_of(o, d, None, DiffSide::Base, Some(name), o.symbols@.len(), k);
        },
    }
}

proof fn lemma_functions_of(
    obj: ObjectSide,
    scores: ObjectScores,
    far: Option<ObjectScores>,
    side: DiffSide,
    symbol: Option<Seq<char>>,
    n: nat,
    k: int,
)
    requires
        functions_of(obj, scores, far, side, symbol, n) is Ok,
        0 <= k < functions_of(obj, scores, far, side, symbol, n)->Ok_0.len(),
    ensures
        ({
            let view = functions_of(obj, scores, far, side, symbol, n)->Ok_0[k];
            &&& symbol is Some ==> key_of(view.name) == key_of(symbol->0)
            &&& side == DiffSide::Target ==> view.target is Some
            &&& side == DiffSide::Base ==> view.base is Some
        }),
    decreases n,
{
    if n > 0 {
        let before = functions_of(obj, scores, far, side, symbol, (n - 1) as nat);
        if k < before->Ok_0.len() {
            lemma_functions_of(obj, scores, far, side, symbol, (n - 1) as nat, k);
        }
    }
}

/// Whether a side tells of a score: its percentage, and a row for each of its
/// rows, in their order, with its flag, its branch and what its segments read.
pub open spec fn tells_of_score(side: SideFacts, score: SymbolScore) -> bool {
    &&& score.rows is Ok
    &&& score.match_percent is None ==> side.match_percent is None
    &&& score.match_percent is Some ==> side.match_percent is Some && side.match_percent->0.bits
        == score.match_percent->0.bits && side.match_percent->0.text == score.match_percent->0.text@
    &&& side.rows.len() == score.rows->Ok_0@.len()
    &&& forall|r: int|
        0 <= r < side.rows.len() ==> {
            let row = score.rows->Ok_0@[r];
            &&& (#[trigger] side.rows[r]).changed == row.changed
            &&& side.rows[r].branch_to == row.branch_to
            &&& side.rows[r].text == row_text(row.segments@)
            &&& side.rows[r].colored == row_colored(row.segments@)
        }
}

/// Whether a symbol is a function of the key asked for, where one is.
pub open spec fn is_asked_for(sym: SymbolInfo, symbol: Option<Seq<char>>) -> bool {
    sym.kind == SymbolKind::Function && (symbol is Some ==> key_of(sym.name@) == key_of(symbol->0))
}

/// Where a unit has a target, its functions are exactly the target's functions
/// that were asked for, in their order. Each has its target side from its own
/// score; its other side is that of the symbol that the diff matched it to,
/// where it was matched and there is a base. Their places are given.
pub proof fn law_every_target_function_is_shown(
    unit: UnitDiff,
    obj: ObjectSide,
    scores: ObjectScores,
    symbol: Option<Seq<char>>,
) -> (order: Seq<int>)
    requires
        unit.target == Some(obj),
        unit.target_scores == Some(scores),
        unit.functions(symbol) is Ok,
    ensures
        selects(order, obj.symbols@.len() as int, |i: int| is_asked_for(obj.symbols@[i], symbol)),
        unit.functions(symbol)->Ok_0.len() == order.len(),
        forall|k: int|
            0 <= k < order.len() ==> {
                let view = #[trigger] unit.functions(symbol)->Ok_0[k];
                let i = order[k];
                &&& i < scores.symbols@.len()
                &&& view.name == obj.symbols@[i].name@
                &&& view.size == obj.symbols@[i].size
                &&& view.target is Some && tells_of_score(view.target->0, scores.symbols@[i])
                &&& match (scores.symbols@[i].target_symbol, unit.base, unit.base_scores) {
                    (Some(m), Some(_), Some(far)) => m < far.symbols@.len() && view.base is Some && tells_of_score(
                        view.base->0,
                        far.symbols@[m as int],
                    ),
                    _ => view.base is None,
                }
            },
{
    let far = unit.scores_of(DiffSide::Base);
    lemma_shown(obj, scores, far, DiffSide::Target, symbol, obj.symbols@.len())
}

/// A unit whose target's functions can all be shown does not fail.
pub proof fn law_functions_that_can_be_shown_are(
    unit: UnitDiff,
    obj: ObjectSide,
    scores: ObjectScores,
    symbol: Option<Seq<char>>,
)
    requires
        unit.target == Some(obj),
        unit.target_scores == Some(scores),
        forall|k: int|
            0 <= k < obj.symbols@.len() && is_asked_for(#[trigger] obj.symbols@[k], symbol) ==> can_be_shown(
                scores,
                unit.scores_of(DiffSide::Base),
                k,
            ),
    ensures
        unit.functions(symbol) is Ok,
{
    lemma_all_shown(
        obj,
        scores,
        unit.scores_of(DiffSide::Base),
        DiffSide::Target,
        symbol,
        obj.symbols@.len(),
    );
}

/// Where a unit has only a base, its functions are exactly the base's that were
/// asked for, in their order, each with its base side and no other. A unit with
/// neither has none.
pub proof fn law_every_base_function_is_shown(
    unit: UnitDiff,
    obj: ObjectSide,
    scores: ObjectScores,
    symbol: Option<Seq<char>>,
) -> (order: Seq<int>)
    requires
        unit.target is None || unit.target_scores is None,
        unit.base == Some(obj),
        unit.base_scores == Some(scores),
        unit.functions(symbol) is Ok,
    ensures
        selects(order, obj.symbols@.len() as int, |i: int| is_asked_for(obj.symbols@[i], symbol)),
        unit.functions(symbol)->Ok_0.len() == order.len(),
        forall|k: int|
            0 <= k < order.len() ==> {
                let view = #[trigger] unit.functions(symbol)->Ok_0[k];
                let i = order[k];
                &&& i < scores.symbols@.len()
                &&& view.name == obj.symbols@[i].name@
                &&& view.size == obj.symbols@[i].size
                &&& view.base is Some && tells_of_score(view.base->0, scores.symbols@[i])
                &&& view.target is None
            },
{
    lemma_shown(obj, scores, None, DiffSide::Base, symbol, obj.symbols@.len())
}

proof fn lemma_shown(
    obj: ObjectSide,
    scores: ObjectScores,
    far: Option<ObjectScores>,
    side: DiffSide,
    symbol: Option<Seq<char>>,
    n: nat,
) -> (order: Seq<int>)
    requires
        functions_of(obj, scores, far, side, symbol, n) is Ok,
    ensures
        selects(order, n as int, |i: int| is_asked_for(obj.symbols@[i], symbol)),
        functions_of(obj, scores, far, side, symbol, n)->Ok_0.len() == order.len(),
        forall|k: int|
            0 <= k < order.len() ==> {
                let view = #[trigger] functions_of(obj, scores, far, side, symbol, n)->Ok_0[k];
                let i = order[k];
                let (near, other) = match side {
                    DiffSide::Target => (view.target, view.base),
                    DiffSide::Base => (view.base, view.target),
                };
                &&& i < scores.symbols@.len()
                &&& view.name == obj.symbols@[i].name@
                &&& view.size == obj.symbols@[i].size
                &&& near is Some && tells_of_score(near->0, scores.symbols@[i])
                &&& match (scores.symbols@[i].target_symbol, far) {
                    (Some(m), Some(far)) => m < far.symbols@.len() && other is Some && tells_of_score(
                        other->0,
                        far.symbols@[m as int],
                    ),
                    _ => other is None,
                }
            },
    decreases n,
{
    let wanted = |i: int| is_asked_for(obj.symbols@[i], symbol);
    if n == 0 {
        Seq::empty()
    } else {
        let before = lemma_shown(obj, scores, far, side, symbol, (n - 1) as nat);
        lemma_selects_more(before, n - 1, wanted);
        if wanted(n - 1) {
            before.push(n - 1)
        } else {
            before
        }
    }
}

/// Whether symbol `k` can be shown: it has a score, its rows can be displayed,
/// and so can those of the symbol that it was matched to.
pub open spec fn can_be_shown(scores: ObjectScores, far: Option<ObjectScores>, k: int) -> bool {
    &&& k < scores.symbols@.len()
    &&& scores.symbols@[k].rows is Ok
    &&& match (scores.symbols@[k].target_symbol, far) {
        (Some(m), Some(other)) => m < other.symbols@.len() && other.symbols@[m as int].rows is Ok,
        _ => true,
    }
}

/// The first function asked for that cannot be shown decides what fails: it has
/// no score, its rows cannot be displayed, or it was matched to a symbol without
/// a score.
pub proof fn law_the_first_function_that_cannot_be_shown_is_told(
    unit: UnitDiff,
    obj: ObjectSide,
    scores: ObjectScores,
    symbol: Option<Seq<char>>,
    i: int,
)
    requires
        unit.target == Some(obj),
        unit.target_scores == Some(scores),
        0 <= i < obj.symbols@.len(),
        is_asked_for(obj.symbols@[i], symbol),
        forall|k: int|
            0 <= k < i && is_asked_for(#[trigger] obj.symbols@[k], symbol) ==> can_be_shown(
                scores,
                unit.scores_of(DiffSide::Base),
                k,
            ),
    ensures
        i >= scores.symbols@.len() ==> unit.functions(symbol) == Err::<Seq<FnFacts>, ViewErrorFacts>(
            ViewErrorFacts::NoScore(obj.symbols@[i].name@),
        ),
        i < scores.symbols@.len() && scores.symbols@[i].rows is Err ==> unit.functions(symbol) == Err::<
            Seq<FnFacts>,
            ViewErrorFacts,
        >(ViewErrorFacts::Display(scores.symbols@[i].rows->Err_0@)),
        i < scores.symbols@.len() && scores.symbols@[i].rows is Ok && unit.base is Some && unit.base_scores is Some
            && scores.symbols@[i].target_symbol is Some && scores.symbols@[i].target_symbol->0
            >= unit.base_scores->0.symbols@.len() ==> unit.functions(symbol) == Err::<Seq<FnFacts>, ViewErrorFacts>(
            ViewErrorFacts::NoMatch(scores.symbols@[i].target_symbol->0),
        ),
{
    let far = unit.scores_of(DiffSide::Base);
    lemma_all_shown(obj, scores, far, DiffSide::Target, symbol, i as nat);
    let now = functions_of(obj, scores, far, DiffSide::Target, symbol, (i + 1) as nat);
    if now is Err {
        lemma_first_error(obj, scores, far, DiffSide::Target, symbol, (i + 1) as nat, obj.symbols@.len());
    }
}

proof fn lemma_all_shown(
    obj: ObjectSide,
    scores: ObjectScores,
    far: Option<ObjectScores>,
    side: DiffSide,
    symbol: Option<Seq<char>>,
    n: nat,
)
    requires
        n <= obj.symbols@.len(),
        forall|k: int|
            0 <= k < n && is_asked_for(#[trigger] obj.symbols@[k], symbol) ==> can_be_shown(scores, far, k),
    ensures
        functions_of(obj, scores, far, side, symbol, n) is Ok,
    decreases n,
{
    if n > 0 {
        lemma_all_shown(obj, scores, far, side, symbol, (n - 1) as nat);
        assert(is_wanted(obj.symbols@[n - 1], symbol) == is_asked_for(obj.symbols@[n - 1], symbol));
    }
}

/// What a segment puts on its row: its text and blanks up to its width.
pub open spec fn on_the_row(s: Segment) -> Seq<char> {
    match segment_text(s.text) {
        Some(text) => left_in(text, s.pad_to as nat),
        None => Seq::empty(),
    }
}

/// A row reads its segments one behind the other, from the first to the last,
/// each filled up to its width, without the white space at its end.
pub proof fn law_a_row_reads_its_segments(segments: Seq<Segment>)
    ensures
        row_text(segments) == trim_end(
            joined(Seq::new(segments.len(), |i: int| on_the_row(segments[i])), ""@),
        ),
{
    law_assembled_row_is_trimmed(row_parts(segments, segments.len()));
    lemma_row_reads(segments, segments.len());
}

proof fn lemma_plain_text_both(a: Seq<(Seq<char>, Seq<char>)>, b: Seq<(Seq<char>, Seq<char>)>)
    ensures
        plain_text(a + b) == plain_text(a) + plain_text(b),
    decreases b.len(),
{
    if b.len() == 0 {
        assert(a + b =~= a);
        assert(plain_text(a) + plain_text(b) =~= plain_text(a));
    } else {
        assert((a + b).drop_last() =~= a + b.drop_last());
        assert((a + b).last() == b.last());
        lemma_plain_text_both(a, b.drop_last());
        assert(plain_text(a) + plain_text(b.drop_last()) + b.last().1 =~= plain_text(a) + plain_text(b));
    }
}

proof fn lemma_row_reads(segments: Seq<Segment>, n: nat)
    requires
        n <= segments.len(),
    ensures
        plain_text(row_parts(segments, n)) == joined(Seq::new(n, |i: int| on_the_row(segments[i])), ""@),
    decreases n,
{
    if n > 0 {
        let m = (n - 1) as nat;
        lemma_row_reads(segments, m);
        let s = segments[n - 1];
        let parts = segment_parts(s);
        let before = Seq::new(m, |i: int| on_the_row(segments[i]));
        lemma_plain_text_both(row_parts(segments, m), parts);
        reveal_with_fuel(plain_text, 3);
        assert(plain_text(parts) =~= on_the_row(s)) by {
            if parts.len() == 2 {
                assert(parts.drop_last() =~= seq![parts[0]]);
                assert(parts.drop_last().drop_last() =~= Seq::empty());
            } else if parts.len() == 1 {
                assert(parts.drop_last() =~= Seq::empty());
            }
        }
        lemma_joined_with_nothing(before, on_the_row(s));
        assert(Seq::new(n, |i: int| on_the_row(segments[i])) =~= before.push(on_the_row(s)));
    }
}

/// An addend reads its sign and its magnitude in hexadecimal; that of zero
/// reads nothing.
pub proof fn law_an_addend_reads_its_value(addend: int)
    ensures
        addend == 0 ==> addend_text(addend).len() == 0,
        addend > 0 ==> begins_with(addend_text(addend), "+0x"@) && number_of(addend_text(addend).skip(3), 16) == addend,
        addend < 0 ==> begins_with(addend_text(addend), "-0x"@) && number_of(addend_text(addend).skip(3), 16)
            == -addend,
{
    reveal_strlit("+0x");
    reveal_strlit("-0x");
    let t = addend_text(addend);
    if addend > 0 {
        law_digits_tell_the_number(addend as nat, 16);
        assert(t.skip(3) =~= digits(addend as nat, 16));
        assert(t.subrange(0, 3) =~= "+0x"@);
    } else if addend < 0 {
        law_digits_tell_the_number((-addend) as nat, 16);
        assert(t.skip(3) =~= digits((-addend) as nat, 16));
        assert(t.subrange(0, 3) =~= "-0x"@);
    }
}

/// A percentage is full from the bits of 100 up to those of infinity, and turns
/// green just there.
pub proof fn law_full_is_at_least_100(bits: u32)
    ensures
        is_complete(bits) <==> 0x42c8_0000 <= bits <= 0x7f80_0000,
{
}

/// What a segment puts on a colored row: its text between its escape and the
/// reset, or alone where it has no color, and the blanks behind it.
pub open spec fn on_the_colored_row(s: Segment) -> Seq<char> {
    match segment_text(s.text) {
        Some(text) => (if s.color == SegmentColor::Normal {
            text
        } else {
            ansi(s.color) + text + "\x1b[0m"@
        }) + repeated(' ', if text.len() < s.pad_to { (s.pad_to - text.len()) as nat } else { 0 }),
        None => Seq::empty(),
    }
}

/// A row that ends in something to show is colored segment by segment, each in
/// its own color.
pub proof fn law_a_colored_row_styles_its_segments(segments: Seq<Segment>)
    requires
        segments.len() > 0,
        match segment_text(segments.last().text) {
            Some(text) => text.len() > 0 && text.len() >= segments.last().pad_to && !is_white_space(text.last()),
            None => false,
        },
    ensures
        row_colored(segments) == joined(Seq::new(segments.len(), |i: int| on_the_colored_row(segments[i])), ""@),
{
    let parts = row_parts(segments, segments.len());
    let last = segments.last();
    let text = segment_text(last.text)->0;
    assert(segment_parts(last) == seq![(ansi(last.color), text)]);
    assert(parts.last() == (ansi(last.color), text));
    assert(trim_end(text) == text);
    assert(parts.drop_last().push(parts.last()) =~= parts);
    lemma_row_is_colored(segments, segments.len());
}

proof fn lemma_colored_text_both(a: Seq<(Seq<char>, Seq<char>)>, b: Seq<(Seq<char>, Seq<char>)>)
    ensures
        colored_text(a + b) == colored_text(a) + colored_text(b),
    decreases b.len(),
{
    if b.len() == 0 {
        assert(a + b =~= a);
        assert(colored_text(a) + colored_text(b) =~= colored_text(a));
    } else {
        assert((a + b).drop_last() =~= a + b.drop_last());
        assert((a + b).last() == b.last());
        lemma_colored_text_both(a, b.drop_last());
        let end = styled(b.last().1, b.last().0, true);
        assert(colored_text(a) + colored_text(b.drop_last()) + end =~= colored_text(a) + (colored_text(b.drop_last())
            + end));
    }
}

proof fn lemma_colored_parts(s: Segment)
    ensures
        colored_text(segment_parts(s)) == on_the_colored_row(s),
{
    let parts = segment_parts(s);
    lemma_ansi_is_escape(s.color);
    reveal_with_fuel(colored_text, 3);
    if parts.len() == 2 {
        assert(parts.drop_last() =~= seq![parts[0]]);
        assert(parts.drop_last().drop_last() =~= Seq::empty());
    } else if parts.len() == 1 {
        assert(parts.drop_last() =~= Seq::empty());
    }
    match segment_text(s.text) {
        Some(text) => {
            let shown = styled(text, ansi(s.color), true);
            assert(Seq::<char>::empty() + shown =~= shown);
            assert(shown + repeated(' ', 0) =~= shown);
            assert(colored_text(parts) =~= on_the_colored_row(s));
        },
        None => {},
    }
}

proof fn lemma_row_is_colored(segments: Seq<Segment>, n: nat)
    requires
        n <= segments.len(),
    ensures
        colored_text(row_parts(segments, n)) == joined(Seq::new(n, |i: int| on_the_colored_row(segments[i])), ""@),
    decreases n,
{
    if n > 0 {
        let m = (n - 1) as nat;
        lemma_row_is_colored(segments, m);
        let s = segments[n - 1];
        let before = Seq::new(m, |i: int| on_the_colored_row(segments[i]));
        lemma_colored_text_both(row_parts(segments, m), segment_parts(s));
        lemma_colored_parts(s);
        lemma_joined_with_nothing(before, on_the_colored_row(s));
        assert(Seq::new(n, |i: int| on_the_colored_row(segments[i])) =~= before.push(on_the_colored_row(s)));
    }
}

/// Addresses read as hexadecimal numbers, the one of a row with a colon behind it;
/// texts read as they are, an opcode with a blank behind it; a symbol reads its
/// demangled name where it has one; line numbers and line ends read nothing.
pub proof fn law_segments_read_what_they_hold(t: SegmentText)
    ensures
        match t {
            SegmentText::Basic(s) => segment_text(t) == Some(s@),
            SegmentText::Argument(s) => segment_text(t) == Some(s@),
            SegmentText::Opcode(s) => segment_text(t) == Some(s@ + seq![' ']),
            SegmentText::Symbol(name, None) => segment_text(t) == Some(name@),
            SegmentText::Symbol(_, Some(name)) => segment_text(t) == Some(name@),
            SegmentText::Address(a) => segment_text(t) is Some && segment_text(t)->0.last() == ':' && number_of(
                segment_text(t)->0.drop_last(),
                16,
            ) == a,
            SegmentText::BranchDest(a) => segment_text(t) is Some && number_of(segment_text(t)->0, 16) == a,
            SegmentText::BranchArrow => segment_text(t) == Some(repeated(' ', 4)),
            SegmentText::Spacing(n) => segment_text(t) == Some(repeated(' ', n as nat)),
            SegmentText::Addend(a) => segment_text(t) == Some(addend_text(a as int)),
            SegmentText::Line(_) => segment_text(t) is None,
            SegmentText::Eol => segment_text(t) is None,
        },
{
    reveal_strlit("    ");
    match t {
        SegmentText::Opcode(s) => {
            assert(s@.push(' ') =~= s@ + seq![' ']);
        },
        SegmentText::Address(a) => {
            law_digits_tell_the_number(a as nat, 16);
            assert(digits(a as nat, 16).push(':').drop_last() =~= digits(a as nat, 16));
        },
        SegmentText::BranchDest(a) => {
            law_digits_tell_the_number(a as nat, 16);
        },
        SegmentText::BranchArrow => {
            assert("    "@ =~= repeated(' ', 4));
        },
        _ => {},
    }
}

/// Branches cycle through six hues, told apart by their index modulo six, of which
/// the low eight bits count.
pub proof fn law_branches_cycle_through_six_hues(i: nat, j: nat, branch_idx: u32)
    ensures
        hue(i) == hue(j) <==> i % 6 == j % 6,
        branch_ansi(branch_idx) == hue((branch_idx % 256) as nat),
        ansi(SegmentColor::Rotating((branch_idx % 256) as u8)) == branch_ansi(branch_idx),
{
    reveal_strlit("\x1b[36m");
    reveal_strlit("\x1b[31m");
    reveal_strlit("\x1b[32m");
    reveal_strlit("\x1b[33m");
    reveal_strlit("\x1b[34m");
    reveal_strlit("\x1b[35m");
    lemma_hue_digit(i);
    lemma_hue_digit(j);
}

/// The digit of a hue tells which of the six it is.
proof fn lemma_hue_digit(i: nat)
    ensures
        hue(i).len() == 5,
        i % 6 == 0 ==> hue(i)[3] == '5',
        i % 6 == 1 ==> hue(i)[3] == '3',
        i % 6 == 2 ==> hue(i)[3] == '4',
        i % 6 == 3 ==> hue(i)[3] == '1',
        i % 6 == 4 ==> hue(i)[3] == '2',
        i % 6 == 5 ==> hue(i)[3] == '6',
{
    reveal_strlit("\x1b[36m");
    reveal_strlit("\x1b[31m");
    reveal_strlit("\x1b[32m");
    reveal_strlit("\x1b[33m");
    reveal_strlit("\x1b[34m");
    reveal_strlit("\x1b[35m");
}

/// Parts stand one behind the other in their order: plain their texts, and in
/// color each text between its escape and the reset, where it has an escape.
pub proof fn law_assembled_parts_stand_in_order(parts: Seq<(Seq<char>, Seq<char>)>)
    ensures
        plain_text(parts) == joined(Seq::new(parts.len(), |i: int| parts[i].1), ""@),
        colored_text(parts) == joined(
            Seq::new(
                parts.len(),
                |i: int|
                    if parts[i].0.len() > 0 {
                        parts[i].0 + parts[i].1 + "\x1b[0m"@
                    } else {
                        parts[i].1
                    },
            ),
            ""@,
        ),
    decreases parts.len(),
{
    let shown = Seq::new(
        parts.len(),
        |i: int|
            if parts[i].0.len() > 0 {
                parts[i].0 + parts[i].1 + "\x1b[0m"@
            } else {
                parts[i].1
            },
    );
    let read = Seq::new(parts.len(), |i: int| parts[i].1);
    if parts.len() > 0 {
        let init = parts.drop_last();
        law_assembled_parts_stand_in_order(init);
        let n = init.len();
        lemma_joined_with_nothing(shown.take(n as int), shown[n as int]);
        lemma_joined_with_nothing(read.take(n as int), read[n as int]);
        assert(shown =~= shown.take(n as int).push(shown[n as int]));
        assert(read =~= read.take(n as int).push(read[n as int]));
        assert(read.take(n as int) =~= Seq::new(n, |i: int| init[i].1));
        assert(shown.take(n as int) =~= Seq::new(
            n,
            |i: int|
                if init[i].0.len() > 0 {
                    init[i].0 + init[i].1 + "\x1b[0m"@
                } else {
                    init[i].1
                },
        ));
    }
}

/// What is white at the end of the last part that shows anything is cut off, and
/// the part keeps its escape; parts behind it are dropped with theirs.
pub proof fn law_the_last_part_that_shows_is_trimmed(
    parts: Seq<(Seq<char>, Seq<char>)>,
    escape: Seq<char>,
    text: Seq<char>,
    white: Seq<char>,
)
    requires
        text.len() > 0,
        !is_white_space(text.last()),
        forall|i: int| 0 <= i < white.len() ==> is_white_space(#[trigger] white[i]),
    ensures
        trim_parts(parts.push((escape, text + white))) == parts.push((escape, text)),
        trim_parts(parts.push((escape, white))) == trim_parts(parts),
{
    lemma_trim_end(white);
    assert(trim_end(white).len() == 0) by {
        if trim_end(white).len() > 0 {
            assert(trim_end(white).last() == white[trim_end(white).len() - 1]);
        }
    }
    lemma_trim_end_concat(text, white);
    assert(parts.push((escape, text + white)).drop_last() =~= parts);
    assert(parts.push((escape, white)).drop_last() =~= parts);
}

} // verus!
