//! The match percentage report, and how the work for it is parted.
use vstd::prelude::*;

use crate::codegen::{law_a_source_is_compiled_to_its_own_object, unit_name};
use crate::maps::is_among;
use crate::measures::{law_a_total_adds_up_each_number, sum_of, tally_of, FnItem, Measures, Tally};
use crate::num::{append_left_in, append_right_in, digits, digits_text, left_in, lemma_digits_plain, right_in};
use crate::objdiff::{is_complete, reaches_full, Percent};
use crate::order::{lemma_selects_more, selects};
use crate::render::{paint_pct_text, pct_escape};
use crate::style::{
    append_styled, is_plain, lemma_colors_are_escapes, lemma_plain_concat, lemma_shows_concat, lemma_shows_plain,
    lemma_shows_styled, shows, styled, visible, GREEN,
};
use crate::text::{as_lines, begins_with, joined, lemma_as_lines_more, lemma_joined_with_nothing, repeated, texts};

verus! {

/// One function of the report: its entry, and how its percentage reads.
pub struct FnProgress {
    pub item: FnItem,
    pub percent: String,
}

/// One measured unit of the report.
pub struct UnitProgress {
    pub name: String,
    pub measures: Measures,
    /// How much of its code matches.
    pub percent: Percent,
    pub functions: Vec<FnProgress>,
}

/// The name under which the report lists a unit.
pub open spec fn report_name(unit: Seq<char>) -> Seq<char> {
    "src/"@ + unit
}

/// The names under which the report lists units.
pub fn report_names(units: &Vec<String>) -> (r: Vec<String>)
    ensures
        texts(r@) == Seq::new(units@.len(), |i: int| report_name(units@[i]@)),
{
    let n = units.len();
    let mut out: Vec<String> = Vec::new();
    let mut i: usize = 0;
    while i < n
        invariant
            i <= n,
            n == units@.len(),
            out@.len() == i,
            forall|j: int| 0 <= j < i ==> (#[trigger] out@[j])@ == report_name(units@[j]@),
        decreases n - i,
    {
        let mut name = String::from_str("src/");
        name.append(units[i].as_str());
        out.push(name);
        i = i + 1;
    }
    assert(texts(out@) =~= Seq::new(units@.len(), |i: int| report_name(units@[i]@)));
    out
}

/// What is said of a unit without a delinked target.
pub fn skipped_message(name: &str) -> (r: String)
    ensures
        r@ == "skipping unit without target: "@ + name@,
{
    let mut s = String::from_str("skipping unit without target: ");
    s.append(name);
    s
}

/// How many of something there are out of how many, and how much code that is.
pub open spec fn overall_line(total: Measures, percent: Percent, color: bool) -> Seq<char> {
    "OVERALL: "@ + digits(total.matched_functions as nat, 10) + "/"@ + digits(total.total_functions as nat, 10)
        + " functions, code "@ + styled(percent.text@, pct_escape(percent.bits), color) + "%\n"@
}

/// The line of a unit.
pub open spec fn unit_line(unit: UnitProgress, color: bool) -> Seq<char> {
    "  "@ + left_in(unit.name@, 20) + " "@ + right_in(digits(unit.measures.matched_functions as nat, 10), 3, ' ') + "/"@
        + left_in(digits(unit.measures.total_functions as nat, 10), 4) + "  code "@ + styled(
        unit.percent.text@,
        pct_escape(unit.percent.bits),
        color,
    ) + "%\n"@
}

/// The mark of a function: whether it matches in full.
pub open spec fn fn_mark(bits: u32, color: bool) -> Seq<char> {
    if is_complete(bits) {
        styled("OK "@, GREEN@, color)
    } else {
        "   "@
    }
}

/// The line of a function.
pub open spec fn fn_line(f: FnProgress, color: bool) -> Seq<char> {
    "      "@ + fn_mark(f.item.match_percent, color) + " "@ + styled(
        f.percent@,
        pct_escape(f.item.match_percent),
        color,
    ) + "% "@ + right_in(digits(f.item.size as nat, 10), 5, ' ') + "  "@ + f.item.name@ + "\n"@
}

/// The lines of the first `n` functions.
pub open spec fn fn_lines(functions: Seq<FnProgress>, n: nat, color: bool) -> Seq<char>
    decreases n,
{
    if n == 0 || n > functions.len() {
        Seq::empty()
    } else {
        fn_lines(functions, (n - 1) as nat, color) + fn_line(functions[n - 1], color)
    }
}

/// Whether a unit is in the report: one of those asked for, or, where none was,
/// one that has matched anything.
pub open spec fn is_reported(unit: UnitProgress, wanted: Seq<Seq<char>>) -> bool {
    if wanted.len() == 0 {
        unit.measures.matched_functions != 0
    } else {
        wanted.contains(unit.name@)
    }
}

/// What the report says of a unit. One that was asked for is expanded: its
/// functions are listed too.
pub open spec fn unit_text(unit: UnitProgress, wanted: Seq<Seq<char>>, color: bool) -> Seq<char> {
    if !is_reported(unit, wanted) {
        Seq::empty()
    } else if wanted.len() == 0 {
        unit_line(unit, color)
    } else {
        unit_line(unit, color) + fn_lines(unit.functions@, unit.functions@.len(), color)
    }
}

/// What the report says of the first `n` units.
pub open spec fn unit_texts(units: Seq<UnitProgress>, wanted: Seq<Seq<char>>, n: nat, color: bool) -> Seq<char>
    decreases n,
{
    if n == 0 || n > units.len() {
        Seq::empty()
    } else {
        unit_texts(units, wanted, (n - 1) as nat, color) + unit_text(units[n - 1], wanted, color)
    }
}

/// The whole report.
pub open spec fn report_text(
    total: Measures,
    percent: Percent,
    units: Seq<UnitProgress>,
    wanted: Seq<Seq<char>>,
    color: bool,
) -> Seq<char> {
    overall_line(total, percent, color) + unit_texts(units, wanted, units.len(), color)
}

fn render_unit_line(unit: &UnitProgress, color: bool) -> (s: String)
    ensures
        s@ == unit_line(*unit, color),
{
    let mut s = String::from_str("  ");
    append_left_in(&mut s, unit.name.as_str(), 20);
    s.append(" ");
    append_right_in(&mut s, digits_text(unit.measures.matched_functions as u64, 10).as_str(), 3, ' ');
    s.append("/");
    append_left_in(&mut s, digits_text(unit.measures.total_functions as u64, 10).as_str(), 4);
    s.append("  code ");
    s.append(paint_pct_text(unit.percent.text.as_str(), unit.percent.bits, color).as_str());
    s.append("%\n");
    s
}

fn render_fn_line(f: &FnProgress, color: bool) -> (s: String)
    ensures
        s@ == fn_line(*f, color),
{
    let mut s = String::from_str("      ");
    if reaches_full(f.item.match_percent) {
        append_styled(&mut s, "OK ", GREEN, color);
    } else {
        s.append("   ");
    }
    s.append(" ");
    s.append(paint_pct_text(f.percent.as_str(), f.item.match_percent, color).as_str());
    s.append("% ");
    append_right_in(&mut s, digits_text(f.item.size, 10).as_str(), 5, ' ');
    s.append("  ");
    s.append(f.item.name.as_str());
    s.append("\n");
    s
}

fn render_unit(unit: &UnitProgress, wanted: &Vec<String>, color: bool) -> (s: String)
    ensures
        s@ == unit_text(*unit, texts(wanted@), color),
{
    assert(texts(wanted@).len() == wanted@.len());
    if wanted.len() == 0 {
        return if unit.measures.matched_functions != 0 {
            render_unit_line(unit, color)
        } else {
            String::new()
        };
    }
    if !is_among(wanted, unit.name.as_str()) {
        return String::new();
    }
    let mut lines = String::new();
    let n = unit.functions.len();
    let mut i: usize = 0;
    while i < n
        invariant
            i <= n,
            n == unit.functions@.len(),
            lines@ == fn_lines(unit.functions@, i as nat, color),
        decreases n - i,
    {
        lines.append(render_fn_line(&unit.functions[i], color).as_str());
        i = i + 1;
    }
    let mut s = render_unit_line(unit, color);
    s.append(lines.as_str());
    s
}

/// Renders the match percentage report.
///
/// Naming a unit expands it: the per-function breakdown is printed too, and the
/// unit is shown even at 0%. With no unit named, units that have matched nothing
/// are omitted to keep the summary short.
pub fn render_progress(
    total: &Measures,
    percent: &Percent,
    units: &Vec<UnitProgress>,
    wanted: &Vec<String>,
    color: bool,
) -> (r: String)
    ensures
        r@ == report_text(*total, *percent, units@, texts(wanted@), color),
{
    let mut out = String::from_str("OVERALL: ");
    out.append(digits_text(total.matched_functions as u64, 10).as_str());
    out.append("/");
    out.append(digits_text(total.total_functions as u64, 10).as_str());
    out.append(" functions, code ");
    out.append(paint_pct_text(percent.text.as_str(), percent.bits, color).as_str());
    out.append("%\n");
    let mut body = String::new();
    let n = units.len();
    let mut i: usize = 0;
    while i < n
        invariant
            i <= n,
            n == units@.len(),
            body@ == unit_texts(units@, texts(wanted@), i as nat, color),
        decreases n - i,
    {
        body.append(render_unit(&units[i], wanted, color).as_str());
        i = i + 1;
    }
    out.append(body.as_str());
    out
}

/// The measures of the units.
pub open spec fn measures_of(units: Seq<UnitProgress>) -> Seq<Measures> {
    Seq::new(units.len(), |i: int| units[i].measures)
}

/// What the units tally together.
pub open spec fn units_tally(units: Seq<UnitProgress>) -> Tally {
    tally_of(measures_of(units), units.len())
}

/// Whether `text` is the report on the units, under their own total and the
/// percentage that was given for it.
pub open spec fn is_report<F: Fn(&Measures) -> Percent>(
    text: Seq<char>,
    percent_of: F,
    units: Seq<UnitProgress>,
    wanted: Seq<Seq<char>>,
    color: bool,
) -> bool {
    exists|total: &Measures, percent: Percent|
        {
            &&& total@ == units_tally(units)
            &&& #[trigger] call_ensures(percent_of, (total,), percent)
            &&& text == report_text(*total, percent, units, wanted, color)
        }
}

/// Totals the units, where the sums fit, and renders the report on them.
/// `percent_of` gives how much of the total's code matches.
pub fn report_progress<F: Fn(&Measures) -> Percent>(
    units: &Vec<UnitProgress>,
    percent_of: F,
    wanted: &Vec<String>,
    color: bool,
) -> (r: Option<String>)
    requires
        forall|total: &Measures| total@ == units_tally(units@) ==> #[trigger] call_requires(percent_of, (total,)),
    ensures
        r is Some <==> units_tally(units@).fits(),
        r is Some ==> is_report(r->0@, percent_of, units@, texts(wanted@), color),
{
    let n = units.len();
    let mut all: Vec<Measures> = Vec::new();
    let mut i: usize = 0;
    while i < n
        invariant
            i <= n,
            n == units@.len(),
            all@.len() == i,
            forall|j: int| 0 <= j < i ==> #[trigger] all@[j] == units@[j].measures,
        decreases n - i,
    {
        all.push(units[i].measures);
        i = i + 1;
    }
    assert(all@ =~= measures_of(units@));
    match Measures::checked_total(&all) {
        Some(total) => {
            let percent = percent_of(&total);
            Some(render_progress(&total, &percent, units, wanted, color))
        },
        None => None,
    }
}

/// How many workers measure the units: as many as there are processors, but no
/// more than there are units, and one at least.
pub open spec fn workers(units: nat, processors: nat) -> nat {
    let most = if units == 0 {
        1
    } else {
        units
    };
    if processors < most {
        processors
    } else {
        most
    }
}

/// How many units each worker takes at most. Together they take all of them, and
/// none takes one more than it must.
pub fn chunk_size(units: usize, processors: usize) -> (r: usize)
    requires
        processors >= 1,
    ensures
        r * workers(units as nat, processors as nat) >= units,
        units > 0 ==> r >= 1 && (r - 1) * workers(units as nat, processors as nat) < units,
        units == 0 ==> r == 0,
{
    let most: usize = if units == 0 {
        1
    } else {
        units
    };
    let n: usize = if processors < most {
        processors
    } else {
        most
    };
    assert(n == workers(units as nat, processors as nat));
    let q: usize = units / n;
    let rest: usize = units % n;
    proof {
        vstd::arithmetic::div_mod::lemma_fundamental_div_mod(units as int, n as int);
        assert(n * q == q * n) by (nonlinear_arith);
    }
    if rest == 0 {
        proof {
            assert(q * n == units);
            if units > 0 {
                assert(q >= 1) by (nonlinear_arith)
                    requires
                        q * n == units,
                        units > 0,
                        q >= 0,
                ;
                assert((q - 1) * n == q * n - n) by (nonlinear_arith);
            } else {
                assert(q == 0) by (nonlinear_arith)
                    requires
                        q * n == 0,
                        n >= 1,
                        q >= 0,
                ;
            }
        }
        q
    } else {
        proof {
            assert((q + 1) * n == q * n + n) by (nonlinear_arith);
            assert(q + 1 <= units) by (nonlinear_arith)
                requires
                    q * n + rest == units,
                    n >= 1,
                    rest >= 1,
                    q >= 0,
            ;
        }
        q + 1
    }
}

/// Whether a unit's texts hold no escapes of their own.
pub open spec fn unit_is_plain(unit: UnitProgress) -> bool {
    &&& is_plain(unit.name@)
    &&& is_plain(unit.percent.text@)
    &&& forall|i: int|
        0 <= i < unit.functions@.len() ==> is_plain((#[trigger] unit.functions@[i]).item.name@) && is_plain(
            unit.functions@[i].percent@,
        )
}

proof fn lemma_padded_plain(s: Seq<char>, width: nat)
    requires
        is_plain(s),
    ensures
        is_plain(left_in(s, width)),
        is_plain(right_in(s, width, ' ')),
{
    let n: nat = if s.len() < width {
        (width - s.len()) as nat
    } else {
        0
    };
    let pad = repeated(' ', n);
    assert(is_plain(pad));
    lemma_plain_concat(s, pad);
    lemma_plain_concat(pad, s);
}

proof fn lemma_pct(text: Seq<char>, bits: u32)
    requires
        is_plain(text),
    ensures
        shows(styled(text, pct_escape(bits), true), text),
{
    lemma_colors_are_escapes();
    lemma_shows_styled(text, pct_escape(bits), true);
}

proof fn lemma_overall_line(total: Measures, percent: Percent)
    requires
        is_plain(percent.text@),
    ensures
        shows(overall_line(total, percent, true), overall_line(total, percent, false)),
{
    let matched = digits(total.matched_functions as nat, 10);
    let all = digits(total.total_functions as nat, 10);
    lemma_digits_plain(total.matched_functions as nat);
    lemma_digits_plain(total.total_functions as nat);
    reveal_strlit("OVERALL: ");
    reveal_strlit("/");
    reveal_strlit(" functions, code ");
    reveal_strlit("%\n");
    let head = "OVERALL: "@ + matched + "/"@ + all + " functions, code "@;
    lemma_plain_concat("OVERALL: "@, matched);
    lemma_plain_concat("OVERALL: "@ + matched, "/"@);
    lemma_plain_concat("OVERALL: "@ + matched + "/"@, all);
    lemma_plain_concat("OVERALL: "@ + matched + "/"@ + all, " functions, code "@);
    lemma_shows_plain(head);
    lemma_pct(percent.text@, percent.bits);
    let c = styled(percent.text@, pct_escape(percent.bits), true);
    lemma_shows_concat(head, head, c, percent.text@);
    lemma_shows_plain("%\n"@);
    lemma_shows_concat(head + c, head + percent.text@, "%\n"@, "%\n"@);
}

proof fn lemma_unit_line(unit: UnitProgress)
    requires
        unit_is_plain(unit),
    ensures
        shows(unit_line(unit, true), unit_line(unit, false)),
{
    let matched = digits(unit.measures.matched_functions as nat, 10);
    let all = digits(unit.measures.total_functions as nat, 10);
    lemma_digits_plain(unit.measures.matched_functions as nat);
    lemma_digits_plain(unit.measures.total_functions as nat);
    lemma_padded_plain(unit.name@, 20);
    lemma_padded_plain(matched, 3);
    lemma_padded_plain(all, 4);
    reveal_strlit("  ");
    reveal_strlit(" ");
    reveal_strlit("/");
    reveal_strlit("  code ");
    reveal_strlit("%\n");
    let a = "  "@ + left_in(unit.name@, 20) + " "@;
    lemma_plain_concat("  "@, left_in(unit.name@, 20));
    lemma_plain_concat("  "@ + left_in(unit.name@, 20), " "@);
    let b = a + right_in(matched, 3, ' ') + "/"@;
    lemma_plain_concat(a, right_in(matched, 3, ' '));
    lemma_plain_concat(a + right_in(matched, 3, ' '), "/"@);
    let head = b + left_in(all, 4) + "  code "@;
    lemma_plain_concat(b, left_in(all, 4));
    lemma_plain_concat(b + left_in(all, 4), "  code "@);
    lemma_shows_plain(head);
    lemma_pct(unit.percent.text@, unit.percent.bits);
    let c = styled(unit.percent.text@, pct_escape(unit.percent.bits), true);
    lemma_shows_concat(head, head, c, unit.percent.text@);
    lemma_shows_plain("%\n"@);
    lemma_shows_concat(head + c, head + unit.percent.text@, "%\n"@, "%\n"@);
}

proof fn lemma_fn_line(f: FnProgress)
    requires
        is_plain(f.item.name@),
        is_plain(f.percent@),
    ensures
        shows(fn_line(f, true), fn_line(f, false)),
{
    let size = right_in(digits(f.item.size as nat, 10), 5, ' ');
    lemma_digits_plain(f.item.size as nat);
    lemma_padded_plain(digits(f.item.size as nat, 10), 5);
    reveal_strlit("      ");
    reveal_strlit("OK ");
    reveal_strlit("   ");
    reveal_strlit(" ");
    reveal_strlit("% ");
    reveal_strlit("  ");
    reveal_strlit("\n");
    lemma_colors_are_escapes();
    let bits = f.item.match_percent;
    let cm = fn_mark(bits, true);
    let pm = fn_mark(bits, false);
    lemma_shows_plain("   "@);
    lemma_shows_styled("OK "@, GREEN@, true);
    lemma_shows_plain("      "@);
    lemma_shows_concat("      "@, "      "@, cm, pm);
    lemma_shows_plain(" "@);
    let c1 = "      "@ + cm + " "@;
    let p1 = "      "@ + pm + " "@;
    lemma_shows_concat("      "@ + cm, "      "@ + pm, " "@, " "@);
    lemma_pct(f.percent@, bits);
    let cp = styled(f.percent@, pct_escape(bits), true);
    lemma_shows_concat(c1, p1, cp, f.percent@);
    lemma_shows_plain("% "@);
    lemma_shows_concat(c1 + cp, p1 + f.percent@, "% "@, "% "@);
    let c2 = c1 + cp + "% "@;
    let p2 = p1 + f.percent@ + "% "@;
    lemma_shows_plain(size);
    lemma_shows_concat(c2, p2, size, size);
    lemma_shows_plain("  "@);
    lemma_shows_concat(c2 + size, p2 + size, "  "@, "  "@);
    lemma_shows_plain(f.item.name@);
    lemma_shows_concat(c2 + size + "  "@, p2 + size + "  "@, f.item.name@, f.item.name@);
    lemma_shows_plain("\n"@);
    lemma_shows_concat(c2 + size + "  "@ + f.item.name@, p2 + size + "  "@ + f.item.name@, "\n"@, "\n"@);
}

proof fn lemma_fn_lines(functions: Seq<FnProgress>, n: nat)
    requires
        n <= functions.len(),
        forall|i: int|
            0 <= i < functions.len() ==> is_plain((#[trigger] functions[i]).item.name@) && is_plain(
                functions[i].percent@,
            ),
    ensures
        shows(fn_lines(functions, n, true), fn_lines(functions, n, false)),
    decreases n,
{
    if n == 0 {
        lemma_shows_plain(Seq::<char>::empty());
    } else {
        lemma_fn_lines(functions, (n - 1) as nat);
        lemma_fn_line(functions[n - 1]);
        lemma_shows_concat(
            fn_lines(functions, (n - 1) as nat, true),
            fn_lines(functions, (n - 1) as nat, false),
            fn_line(functions[n - 1], true),
            fn_line(functions[n - 1], false),
        );
    }
}

proof fn lemma_unit_texts(units: Seq<UnitProgress>, wanted: Seq<Seq<char>>, n: nat)
    requires
        n <= units.len(),
        forall|i: int| 0 <= i < units.len() ==> unit_is_plain(#[trigger] units[i]),
    ensures
        shows(unit_texts(units, wanted, n, true), unit_texts(units, wanted, n, false)),
    decreases n,
{
    if n == 0 {
        lemma_shows_plain(Seq::<char>::empty());
    } else {
        let unit = units[n - 1];
        lemma_unit_texts(units, wanted, (n - 1) as nat);
        lemma_unit_line(unit);
        let m = unit.functions@.len();
        lemma_fn_lines(unit.functions@, m);
        lemma_shows_concat(
            unit_line(unit, true),
            unit_line(unit, false),
            fn_lines(unit.functions@, m, true),
            fn_lines(unit.functions@, m, false),
        );
        lemma_shows_plain(Seq::<char>::empty());
        lemma_shows_concat(
            unit_texts(units, wanted, (n - 1) as nat, true),
            unit_texts(units, wanted, (n - 1) as nat, false),
            unit_text(unit, wanted, true),
            unit_text(unit, wanted, false),
        );
    }
}

/// Color adds escapes and nothing else to a report.
pub proof fn law_color_adds_only_escapes_to_a_report(
    total: Measures,
    percent: Percent,
    units: Seq<UnitProgress>,
    wanted: Seq<Seq<char>>,
)
    requires
        is_plain(percent.text@),
        forall|i: int| 0 <= i < units.len() ==> unit_is_plain(#[trigger] units[i]),
    ensures
        visible(report_text(total, percent, units, wanted, true)) == report_text(total, percent, units, wanted, false),
{
    lemma_overall_line(total, percent);
    lemma_unit_texts(units, wanted, units.len());
    lemma_shows_concat(
        overall_line(total, percent, true),
        overall_line(total, percent, false),
        unit_texts(units, wanted, units.len(), true),
        unit_texts(units, wanted, units.len(), false),
    );
}

/// A percentage as the report shows it: in color green from 100 on and red
/// below.
pub open spec fn shown_percentage(text: Seq<char>, bits: u32, color: bool) -> Seq<char> {
    if !color {
        text
    } else if 0x42c8_0000 <= bits <= 0x7f80_0000 {
        "\x1b[32m"@ + text + "\x1b[0m"@
    } else {
        "\x1b[31m"@ + text + "\x1b[0m"@
    }
}

/// The first line of a report: how many of all functions match, and how much of
/// the code.
pub open spec fn overall_row(total: Measures, percent: Percent, color: bool) -> Seq<char> {
    "OVERALL: "@ + digits(total.matched_functions as nat, 10) + "/"@ + digits(total.total_functions as nat, 10)
        + " functions, code "@ + shown_percentage(percent.text@, percent.bits, color) + "%"@
}

/// The line of a unit: its name, how many of its functions match, and how much
/// of its code.
pub open spec fn unit_row(unit: UnitProgress, color: bool) -> Seq<char> {
    "  "@ + left_in(unit.name@, 20) + " "@ + right_in(digits(unit.measures.matched_functions as nat, 10), 3, ' ') + "/"@
        + left_in(digits(unit.measures.total_functions as nat, 10), 4) + "  code "@ + shown_percentage(
        unit.percent.text@,
        unit.percent.bits,
        color,
    ) + "%"@
}

/// The line of a function: whether it matches in full, its percentage, its size
/// and its name.
pub open spec fn fn_row(f: FnProgress, color: bool) -> Seq<char> {
    let full = 0x42c8_0000 <= f.item.match_percent <= 0x7f80_0000;
    let m = if !full {
        "   "@
    } else if color {
        "\x1b[32mOK \x1b[0m"@
    } else {
        "OK "@
    };
    "      "@ + m + " "@ + shown_percentage(f.percent@, f.item.match_percent, color) + "% "@ + right_in(
        digits(f.item.size as nat, 10),
        5,
        ' ',
    ) + "  "@ + f.item.name@
}

/// The lines on a unit that was asked for: its own, and below it one for each of
/// its functions, in their order.
pub open spec fn expanded_rows(unit: UnitProgress, color: bool) -> Seq<Seq<char>> {
    seq![unit_row(unit, color)] + Seq::new(unit.functions@.len(), |i: int| fn_row(unit.functions@[i], color))
}

proof fn lemma_shown_percentage(text: Seq<char>, bits: u32, color: bool)
    ensures
        styled(text, pct_escape(bits), color) == shown_percentage(text, bits, color),
{
    reveal_strlit("\x1b[32m");
    reveal_strlit("\x1b[31m");
}

proof fn lemma_ended_line(row: Seq<char>)
    ensures
        row + "%\n"@ == row + "%"@ + "\n"@,
{
    reveal_strlit("%\n");
    reveal_strlit("%");
    reveal_strlit("\n");
    assert(row + "%\n"@ =~= row + "%"@ + "\n"@);
}

proof fn lemma_overall_row(total: Measures, percent: Percent, color: bool)
    ensures
        overall_line(total, percent, color) == overall_row(total, percent, color) + "\n"@,
{
    lemma_shown_percentage(percent.text@, percent.bits, color);
    lemma_ended_line(
        "OVERALL: "@ + digits(total.matched_functions as nat, 10) + "/"@ + digits(total.total_functions as nat, 10)
            + " functions, code "@ + shown_percentage(percent.text@, percent.bits, color),
    );
}

proof fn lemma_unit_row(unit: UnitProgress, color: bool)
    ensures
        unit_line(unit, color) == unit_row(unit, color) + "\n"@,
{
    lemma_shown_percentage(unit.percent.text@, unit.percent.bits, color);
    lemma_ended_line(
        "  "@ + left_in(unit.name@, 20) + " "@ + right_in(digits(unit.measures.matched_functions as nat, 10), 3, ' ')
            + "/"@ + left_in(digits(unit.measures.total_functions as nat, 10), 4) + "  code "@ + shown_percentage(
            unit.percent.text@,
            unit.percent.bits,
            color,
        ),
    );
}

proof fn lemma_fn_row(f: FnProgress, color: bool)
    ensures
        fn_line(f, color) == fn_row(f, color) + "\n"@,
{
    lemma_shown_percentage(f.percent@, f.item.match_percent, color);
    reveal_strlit("\x1b[32mOK \x1b[0m");
    reveal_strlit("\x1b[32m");
    reveal_strlit("\x1b[0m");
    reveal_strlit("OK ");
    assert(styled("OK "@, GREEN@, true) =~= "\x1b[32mOK \x1b[0m"@);
}

proof fn lemma_expanded(unit: UnitProgress, color: bool, n: nat)
    requires
        n <= unit.functions@.len(),
    ensures
        unit_line(unit, color) + fn_lines(unit.functions@, n, color) == as_lines(
            expanded_rows(unit, color).take(1 + n as int),
        ),
    decreases n,
{
    let all = expanded_rows(unit, color);
    let first = unit_line(unit, color);
    let head = unit_row(unit, color);
    if n == 0 {
        lemma_unit_row(unit, color);
        lemma_first_line(head);
        assert(all.take(1) =~= seq![head]);
        assert(first + fn_lines(unit.functions@, 0, color) =~= first);
    } else {
        let m = (n - 1) as nat;
        lemma_expanded(unit, color, m);
        let row = fn_row(unit.functions@[n - 1], color);
        lemma_fn_row(unit.functions@[n - 1], color);
        lemma_line_below(all.take(1 + m as int), row, first, fn_lines(unit.functions@, m, color));
        assert(all[n as int] == row);
        assert(all.take(1 + n as int) =~= all.take(1 + m as int).push(row));
    }
}

proof fn lemma_first_line(line: Seq<char>)
    ensures
        as_lines(seq![line]) == line + "\n"@,
{
    let none = Seq::<Seq<char>>::empty();
    lemma_as_lines_more(none, line);
    assert(seq![line] =~= none.push(line));
    assert(as_lines(none) + line =~= line);
}

/// A report on no unit in particular has its first line, and below it one line
/// for each unit that has a matched function, in their order, and no other. The
/// places of those units are given.
pub proof fn law_a_summary_lists_the_units_that_match(
    total: Measures,
    percent: Percent,
    units: Seq<UnitProgress>,
    color: bool,
) -> (order: Seq<int>)
    ensures
        selects(order, units.len() as int, |i: int| units[i].measures.matched_functions > 0),
        report_text(total, percent, units, Seq::empty(), color) == as_lines(
            seq![overall_row(total, percent, color)] + Seq::new(
                order.len(),
                |k: int| unit_row(units[order[k]], color),
            ),
        ),
{
    lemma_summary(total, percent, units, color, units.len())
}

proof fn lemma_summary(
    total: Measures,
    percent: Percent,
    units: Seq<UnitProgress>,
    color: bool,
    n: nat,
) -> (order: Seq<int>)
    requires
        n <= units.len(),
    ensures
        selects(order, n as int, |i: int| units[i].measures.matched_functions > 0),
        overall_line(total, percent, color) + unit_texts(units, Seq::empty(), n, color) == as_lines(
            seq![overall_row(total, percent, color)] + Seq::new(
                order.len(),
                |k: int| unit_row(units[order[k]], color),
            ),
        ),
    decreases n,
{
    let wanted = |i: int| units[i].measures.matched_functions > 0;
    let head = overall_row(total, percent, color);
    let first = overall_line(total, percent, color);
    let nothing = Seq::<Seq<char>>::empty();
    if n == 0 {
        let order = Seq::<int>::empty();
        lemma_overall_row(total, percent, color);
        lemma_as_lines_more(nothing, head);
        assert(seq![head] + Seq::new(order.len(), |k: int| unit_row(units[order[k]], color)) =~= nothing.push(head));
        assert(first + unit_texts(units, nothing, 0, color) =~= as_lines(nothing) + head + "\n"@);
        order
    } else {
        let m = (n - 1) as nat;
        let before = lemma_summary(total, percent, units, color, m);
        lemma_selects_more(before, n - 1, wanted);
        lemma_summary_step(units, color, m, head, first, before);
        if wanted(n - 1) {
            before.push(n - 1)
        } else {
            before
        }
    }
}

proof fn lemma_line_below(rows: Seq<Seq<char>>, row: Seq<char>, first: Seq<char>, text: Seq<char>)
    requires
        as_lines(rows) == first + text,
    ensures
        as_lines(rows.push(row)) == first + (text + (row + "\n"@)),
{
    lemma_as_lines_more(rows, row);
    assert(first + (text + (row + "\n"@)) =~= first + text + row + "\n"@);
}

proof fn lemma_summary_step(
    units: Seq<UnitProgress>,
    color: bool,
    m: nat,
    head: Seq<char>,
    first: Seq<char>,
    before: Seq<int>,
)
    requires
        m < units.len(),
        first + unit_texts(units, Seq::empty(), m, color) == as_lines(
            seq![head] + Seq::new(before.len(), |k: int| unit_row(units[before[k]], color)),
        ),
    ensures
        ({
            let order = if units[m as int].measures.matched_functions > 0 {
                before.push(m as int)
            } else {
                before
            };
            first + unit_texts(units, Seq::empty(), m + 1, color) == as_lines(
                seq![head] + Seq::new(order.len(), |k: int| unit_row(units[order[k]], color)),
            )
        }),
{
    let rows = seq![head] + Seq::new(before.len(), |k: int| unit_row(units[before[k]], color));
    let text = unit_texts(units, Seq::empty(), m, color);
    if units[m as int].measures.matched_functions > 0 {
        let order = before.push(m as int);
        let row = unit_row(units[m as int], color);
        lemma_unit_row(units[m as int], color);
        lemma_line_below(rows, row, first, text);
        assert(seq![head] + Seq::new(order.len(), |k: int| unit_row(units[order[k]], color)) =~= rows.push(row));
    } else {
        assert(text + Seq::<char>::empty() =~= text);
    }
}

/// A report on named units has its first line, and below it, for each unit of
/// one of those names, in their order, the line of the unit and one for each of
/// its functions; units of other names are left out. The places of those units
/// are given.
pub proof fn law_a_named_unit_is_expanded(
    total: Measures,
    percent: Percent,
    units: Seq<UnitProgress>,
    wanted: Seq<Seq<char>>,
    color: bool,
) -> (order: Seq<int>)
    requires
        wanted.len() > 0,
    ensures
        selects(order, units.len() as int, |i: int| wanted.contains(units[i].name@)),
        report_text(total, percent, units, wanted, color) == overall_row(total, percent, color) + "\n"@ + joined(
            Seq::new(order.len(), |k: int| as_lines(expanded_rows(units[order[k]], color))),
            ""@,
        ),
{
    lemma_overall_row(total, percent, color);
    lemma_named(units, wanted, color, units.len())
}

proof fn lemma_named(units: Seq<UnitProgress>, wanted: Seq<Seq<char>>, color: bool, n: nat) -> (order: Seq<int>)
    requires
        n <= units.len(),
        wanted.len() > 0,
    ensures
        selects(order, n as int, |i: int| wanted.contains(units[i].name@)),
        unit_texts(units, wanted, n, color) == joined(
            Seq::new(order.len(), |k: int| as_lines(expanded_rows(units[order[k]], color))),
            ""@,
        ),
    decreases n,
{
    let named = |i: int| wanted.contains(units[i].name@);
    if n == 0 {
        Seq::empty()
    } else {
        let m = (n - 1) as nat;
        let before = lemma_named(units, wanted, color, m);
        lemma_selects_more(before, n - 1, named);
        let texts = Seq::new(before.len(), |k: int| as_lines(expanded_rows(units[before[k]], color)));
        if named(n - 1) {
            let order = before.push(n - 1);
            let unit = units[n - 1];
            let rows = expanded_rows(unit, color);
            lemma_expanded(unit, color, unit.functions@.len());
            assert(rows.take(1 + unit.functions@.len() as int) =~= rows);
            lemma_joined_with_nothing(texts, as_lines(rows));
            assert(Seq::new(order.len(), |k: int| as_lines(expanded_rows(units[order[k]], color))) =~= texts.push(
                as_lines(rows),
            ));
            order
        } else {
            let text = unit_texts(units, wanted, m, color);
            assert(text + Seq::<char>::empty() =~= text);
            before
        }
    }
}

/// There are no more workers than processors, nor more than units but for one,
/// and as many as that allows.
pub proof fn law_workers_are_as_many_as_can_work(units: nat, processors: nat)
    requires
        processors >= 1,
    ensures
        1 <= workers(units, processors) <= processors,
        units > 0 ==> workers(units, processors) <= units,
        workers(units, processors) == processors || workers(units, processors) == units || (units == 0 && workers(
            units,
            processors,
        ) == 1),
{
}

/// The report lists a unit under the name that its own source `src/<unit>.cpp`
/// makes.
pub proof fn law_the_report_lists_units_by_their_source(unit: Seq<char>)
    requires
        !unit.contains('\\'),
    ensures
        report_name(unit) == unit_name("src/"@ + unit + ".cpp"@),
{
    reveal_strlit("src/");
    reveal_strlit(".cpp");
    reveal_strlit(".");
    let stem = "src/"@ + unit;
    let ext = seq!['c', 'p', 'p'];
    assert(stem + ".cpp"@ =~= stem + "."@ + ext);
    assert(!stem.contains('\\')) by {
        if stem.contains('\\') {
            let k = choose|k: int| 0 <= k < stem.len() && stem[k] == '\\';
            assert(unit[k - 4] == '\\');
        }
    }
    law_a_source_is_compiled_to_its_own_object(Seq::empty(), Seq::empty(), stem, ext);
}

/// The total of a report adds up each number of every unit in it.
pub proof fn law_a_report_totals_its_units(units: Seq<UnitProgress>)
    ensures
        units_tally(units).functions == sum_of(
            Seq::new(units.len(), |i: int| units[i].measures.total_functions as nat),
        ),
        units_tally(units).matched_functions == sum_of(
            Seq::new(units.len(), |i: int| units[i].measures.matched_functions as nat),
        ),
        units_tally(units).code == sum_of(Seq::new(units.len(), |i: int| units[i].measures.total_code as nat)),
        units_tally(units).matched_code == sum_of(
            Seq::new(units.len(), |i: int| units[i].measures.matched_code as nat),
        ),
        units_tally(units).data == sum_of(Seq::new(units.len(), |i: int| units[i].measures.total_data as nat)),
        units_tally(units).matched_data == sum_of(
            Seq::new(units.len(), |i: int| units[i].measures.matched_data as nat),
        ),
        units_tally(units).units == sum_of(Seq::new(units.len(), |i: int| units[i].measures.total_units as nat)),
{
    let all = measures_of(units);
    let n = units.len();
    law_a_total_adds_up_each_number(all, n);
    assert(Seq::new(n, |i: int| all[i].total_functions as nat) =~= Seq::new(
        n,
        |i: int| units[i].measures.total_functions as nat,
    ));
    assert(Seq::new(n, |i: int| all[i].matched_functions as nat) =~= Seq::new(
        n,
        |i: int| units[i].measures.matched_functions as nat,
    ));
    assert(Seq::new(n, |i: int| all[i].total_code as nat) =~= Seq::new(
        n,
        |i: int| units[i].measures.total_code as nat,
    ));
    assert(Seq::new(n, |i: int| all[i].matched_code as nat) =~= Seq::new(
        n,
        |i: int| units[i].measures.matched_code as nat,
    ));
    assert(Seq::new(n, |i: int| all[i].total_data as nat) =~= Seq::new(
        n,
        |i: int| units[i].measures.total_data as nat,
    ));
    assert(Seq::new(n, |i: int| all[i].matched_data as nat) =~= Seq::new(
        n,
        |i: int| units[i].measures.matched_data as nat,
    ));
    assert(Seq::new(n, |i: int| all[i].total_units as nat) =~= Seq::new(
        n,
        |i: int| units[i].measures.total_units as nat,
    ));
}

/// A report begins with how many functions of its units match, out of how many
/// they have together.
pub proof fn law_a_report_begins_with_its_sums<F: Fn(&Measures) -> Percent>(
    text: Seq<char>,
    percent_of: F,
    units: Seq<UnitProgress>,
    wanted: Seq<Seq<char>>,
    color: bool,
)
    requires
        is_report(text, percent_of, units, wanted, color),
    ensures
        begins_with(
            text,
            "OVERALL: "@ + digits(
                sum_of(Seq::new(units.len(), |i: int| units[i].measures.matched_functions as nat)),
                10,
            ) + "/"@ + digits(
                sum_of(Seq::new(units.len(), |i: int| units[i].measures.total_functions as nat)),
                10,
            ) + " functions, code "@,
        ),
{
    let (total, percent) = choose|total: &Measures, percent: Percent|
        {
            &&& total@ == units_tally(units)
            &&& #[trigger] call_ensures(percent_of, (total,), percent)
            &&& text == report_text(*total, percent, units, wanted, color)
        };
    law_a_report_totals_its_units(units);
    let head = "OVERALL: "@ + digits(total.matched_functions as nat, 10) + "/"@ + digits(
        total.total_functions as nat,
        10,
    ) + " functions, code "@;
    assert(total@.matched_functions == total.matched_functions as nat);
    assert(total@.functions == total.total_functions as nat);
    assert(text.subrange(0, head.len() as int) =~= head);
}

} // verus!
