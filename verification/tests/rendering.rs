use flboot::gutter::{assign_lanes, branch_gutter};
use flboot::objdiff::{
    assemble, branch_color, fmt_pct, render_row, DiffRow, FnView, Percent, Row, Segment, SegmentColor, SegmentText,
    SideView,
};
use flboot::render::{paint_pct, render_diff, render_listing, MIN_COL};

/// A row whose colored form carries an escape, so tests can tell the two
/// representations apart.
fn row(text: &str, changed: bool) -> Row {
    Row { text: text.to_string(), colored: format!("\x1b[36m{text}\x1b[0m"), changed, branch_to: None }
}

fn percent(pct: f32) -> Percent {
    Percent { bits: pct.to_bits(), text: format!("{pct:.2}") }
}

fn side(pct: f32, rows: Vec<Row>) -> SideView {
    SideView { match_percent: Some(percent(pct)), rows }
}

fn strip_ansi(s: &str) -> String {
    let mut out = String::new();
    let mut chars = s.chars();
    while let Some(c) = chars.next() {
        if c == '\x1b' {
            for c in chars.by_ref() {
                if c == 'm' {
                    break;
                }
            }
        } else {
            out.push(c);
        }
    }
    out
}

/// `foo` exists on both sides; `bar` only in the target.
fn foo_view() -> FnView {
    FnView {
        name: "?foo@@YAXXZ".to_string(),
        size: 8,
        target: Some(side(100.0, vec![row("0: push ebp", false)])),
        base: Some(side(87.5, vec![row("0: mov eax, 1", true)])),
    }
}

fn bar_view() -> FnView {
    FnView {
        name: "?bar@@YAXXZ".to_string(),
        size: 4,
        target: Some(side(50.0, vec![row("4: ret", true)])),
        base: None,
    }
}

#[test]
fn render_diff_single_symbol_shows_only_that_function() {
    let out = render_diff(&vec![foo_view()], Some("?foo@@YAXXZ"), false, false);
    assert!(out.contains("==== ?foo@@YAXXZ"), "{out}");
    assert!(out.contains("TARGET 100.00%"), "{out}");
    assert!(out.contains("OURS 87.50%"), "{out}");
    assert!(out.contains("push ebp"), "{out}");
    assert!(!out.contains("?bar@@YAXXZ"), "should not include other functions: {out}");
}

/// A row changed on either side is marked, so an instruction that differs
/// only in our build still flags.
#[test]
fn render_diff_marks_row_changed_on_either_side() {
    let out = render_diff(&vec![foo_view()], None, false, false);
    let line = out.lines().find(|l| l.contains("push ebp")).unwrap();
    assert!(line.contains("<>"), "changed row must be marked: {line}");
}

#[test]
fn render_diff_leaves_unchanged_rows_unmarked() {
    let view = FnView {
        name: "?same@@YAXXZ".to_string(),
        size: 4,
        target: Some(side(100.0, vec![row("0: ret", false)])),
        base: Some(side(100.0, vec![row("0: ret", false)])),
    };
    let line = render_diff(&vec![view], None, false, false).lines().find(|l| l.contains("ret")).unwrap().to_string();
    assert!(!line.contains("<>"), "unchanged row must not be marked: {line}");
}

#[test]
fn render_diff_all_shows_every_target_function_with_separators() {
    let out = render_diff(&vec![foo_view(), bar_view()], None, false, false);
    assert_eq!(out.matches("==== ").count(), 2, "one separator per function: {out}");
    assert!(out.contains("==== ?foo@@YAXXZ"), "{out}");
    assert!(out.contains("==== ?bar@@YAXXZ"), "{out}");
    // bar exists only in the target, so OURS has no percentage.
    let bar_header = out.lines().find(|l| l.contains("?bar@@YAXXZ")).unwrap();
    assert!(bar_header.contains("OURS -%"), "bar header: {bar_header}");
}

#[test]
fn render_diff_missing_symbol_renders_dashes() {
    let out = render_diff(&vec![], Some("?nope@@YAXXZ"), false, false);
    assert!(out.contains("==== ?nope@@YAXXZ"), "{out}");
    assert!(out.contains("TARGET -%"), "{out}");
    assert!(out.contains("OURS -%"), "{out}");
}

#[test]
fn render_diff_all_with_no_target_functions_reports_empty() {
    assert!(render_diff(&vec![], None, false, false).contains("no functions found"));
}

#[test]
fn render_diff_emits_no_escapes_when_color_disabled() {
    let out = render_diff(&vec![foo_view()], None, false, false);
    assert!(!out.contains('\x1b'), "plain output must have no escapes: {out:?}");
}

#[test]
fn render_diff_emits_escapes_when_color_enabled() {
    let out = render_diff(&vec![foo_view()], None, true, false);
    assert!(out.contains('\x1b'), "colored output must carry escapes");
    // Row content is styled by objdiff's own segment colors; the fixture
    // wraps the whole row, real rows are styled per segment.
    assert!(out.contains("\x1b[36m0: push ebp\x1b[0m"), "{out:?}");
}

/// The alignment invariant: escapes cost bytes but no columns, so the
/// separator must land in the same column with and without color.
#[test]
fn color_does_not_shift_the_column_separator() {
    let strip = |s: &str| {
        let mut out = String::new();
        let mut chars = s.chars();
        while let Some(c) = chars.next() {
            if c == '\x1b' {
                for c in chars.by_ref() {
                    if c == 'm' {
                        break;
                    }
                }
            } else {
                out.push(c);
            }
        }
        out
    };

    let plain = render_diff(&vec![foo_view()], None, false, false);
    let colored = render_diff(&vec![foo_view()], None, true, false);
    assert_eq!(strip(&colored), plain, "stripping escapes must recover the plain rendering");
}

/// A 100% match reads green, anything less reads red.
#[test]
fn percentages_are_painted_by_match_state() {
    let out = render_diff(&vec![foo_view()], None, true, false);
    assert!(out.contains("\x1b[32m100.00\x1b[0m"), "100% should be green: {out:?}");
    assert!(out.contains("\x1b[31m87.50\x1b[0m"), "sub-100% should be red: {out:?}");
}

/// An absent side has no percentage to paint, so `-` stays unstyled.
#[test]
fn absent_side_percentage_is_unpainted() {
    let out = render_diff(&vec![bar_view()], None, true, false);
    assert!(out.contains("OURS -%"), "absent side should render bare dash: {out:?}");
}

fn branch_row(text: &str, branch_to: Option<(usize, u32)>) -> Row {
    Row {
        text: text.to_string(),
        colored: text.to_string(),
        changed: false,
        branch_to,
    }
}

/// A backward branch: the destination gets the arrowhead, the source closes
/// the span, and the rows between carry the vertical.
#[test]
fn gutter_draws_backward_branch_from_source_to_destination() {
    let rows = vec![
        branch_row("0: sub", None),
        branch_row("5: mov", None),      // destination
        branch_row("7: or", None),
        branch_row("3a: jl", Some((1, 0))), // source -> row 1
        branch_row("43: add", None),
    ];
    let (g, w) = branch_gutter(&rows, false);
    assert_eq!(w, 4, "one lane plus a two-char head plus a space");
    assert_eq!(g[0], "    ");
    assert_eq!(g[1], ",-> ", "destination takes the arrowhead");
    assert_eq!(g[2], "|   ", "row inside the span carries the vertical");
    assert_eq!(g[3], "`-- ", "source closes the span");
    assert_eq!(g[4], "    ");
}

/// A forward branch points down: the source opens the span, the destination
/// below it takes the arrowhead.
#[test]
fn gutter_draws_forward_branch() {
    let rows = vec![
        branch_row("0: je", Some((2, 0))),
        branch_row("2: mov", None),
        branch_row("4: ret", None),
    ];
    let (g, _) = branch_gutter(&rows, false);
    assert_eq!(g[0], ",-- ", "source opens the span");
    assert_eq!(g[1], "|   ");
    assert_eq!(g[2], "`-> ", "destination takes the arrowhead");
}

/// Nested branches occupy separate lanes, innermost nearest the text, so a
/// short branch inside a long one does not overwrite it.
#[test]
fn gutter_nests_overlapping_branches_in_separate_lanes() {
    let rows = vec![
        branch_row("0: outer-dest", None),
        branch_row("1: inner-dest", None),
        branch_row("2: body", None),
        branch_row("3: inner-src", Some((1, 1))),
        branch_row("4: outer-src", Some((0, 0))),
    ];
    let (g, w) = branch_gutter(&rows, false);
    assert_eq!(w, 5, "two lanes plus head plus space");
    // Outer branch owns the left lane; inner owns the right.
    assert_eq!(g[0], ",--> ");
    assert_eq!(g[1], "|,-> ");
    assert_eq!(g[2], "||   ");
    assert_eq!(g[3], "|`-- ");
    assert_eq!(g[4], "`--- ");
}

/// Disjoint branches reuse one lane rather than widening the gutter.
#[test]
fn gutter_reuses_a_lane_for_disjoint_branches() {
    let rows = vec![
        branch_row("0: a-dest", None),
        branch_row("1: a-src", Some((0, 0))),
        branch_row("2: b-dest", None),
        branch_row("3: b-src", Some((2, 1))),
    ];
    let (_, w) = branch_gutter(&rows, false);
    assert_eq!(w, 4, "non-overlapping spans share a lane");
}

#[test]
fn gutter_is_empty_without_branches() {
    let rows = vec![branch_row("0: nop", None), branch_row("1: ret", None)];
    let (g, w) = branch_gutter(&rows, false);
    assert_eq!(w, 0);
    assert!(g.iter().all(|s| s.is_empty()));
}

/// A branch whose destination row does not exist is ignored rather than
/// panicking on the out-of-range index.
#[test]
fn gutter_ignores_out_of_range_destination() {
    let rows = vec![branch_row("0: jmp", Some((99, 0)))];
    let (_, w) = branch_gutter(&rows, false);
    assert_eq!(w, 0);
}

/// Colored gutters must occupy the same columns as plain ones.
#[test]
fn gutter_color_and_plain_have_equal_width() {
    let rows = vec![
        branch_row("0: dest", None),
        branch_row("1: src", Some((0, 3))),
    ];
    let (plain, wp) = branch_gutter(&rows, false);
    let (colored, wc) = branch_gutter(&rows, true);
    assert_eq!(wp, wc);
    for (p, c) in plain.iter().zip(colored.iter()) {
        assert!(c.contains('\x1b'), "colored gutter should carry escapes: {c:?}");
        let stripped: String = {
            let mut out = String::new();
            let mut it = c.chars();
            while let Some(ch) = it.next() {
                if ch == '\x1b' {
                    for ch in it.by_ref() {
                        if ch == 'm' {
                            break;
                        }
                    }
                } else {
                    out.push(ch);
                }
            }
            out
        };
        assert_eq!(&stripped, p);
    }
}

/// Separator column, taken from rows that actually have an OURS side.
fn separator_columns(out: &str) -> Vec<usize> {
    out.lines()
        .filter(|l| l.contains(" |") && !l.starts_with("===="))
        .map(|l| l.find(" |").unwrap())
        .collect()
}

/// Regression: an overlong target row used to push the separator right on
/// that row alone, so the OURS column stopped lining up -- and overlong
/// rows are typically the changed ones.
#[test]
fn overlong_target_row_does_not_shift_the_separator() {
    let long = "17:      fdivr     st, qword ptr [__delink_ida_const_start+0x44]";
    assert!(long.len() > MIN_COL, "fixture must exceed the minimum column");
    let view = FnView {
        name: "?wide@@YAXXZ".to_string(),
        size: 8,
        target: Some(side(50.0, vec![row("0: push ebp", false), row(long, true)])),
        base: Some(side(50.0, vec![row("0: push ebp", false), row("1a: fdivr", true)])),
    };
    let out = render_diff(&vec![view], None, false, false);
    let cols = separator_columns(&out);
    assert!(cols.len() >= 3, "expected header plus two rows: {out}");
    assert_eq!(
        cols.iter().collect::<std::collections::HashSet<_>>().len(),
        1,
        "all separators must share one column, got {cols:?}\n{out}"
    );
}

/// Short functions keep the historical 44-column layout.
#[test]
fn narrow_function_keeps_minimum_column() {
    let out = render_diff(&vec![foo_view()], None, false, false);
    for c in separator_columns(&out) {
        assert_eq!(c, MIN_COL, "narrow rows should pad to MIN_COL:\n{out}");
    }
}

/// Widening the column must not disturb the color/plain equivalence.
#[test]
fn overlong_row_keeps_color_and_plain_aligned() {
    let long = "17:      fdivr     st, qword ptr [__delink_ida_const_start+0x44]";
    let view = || FnView {
        name: "?wide@@YAXXZ".to_string(),
        size: 8,
        target: Some(side(50.0, vec![row(long, true)])),
        base: Some(side(50.0, vec![row("1a: fdivr", true)])),
    };
    let plain = render_diff(&vec![view()], None, false, false);
    let colored = render_diff(&vec![view()], None, true, false);
    let strip = |s: &str| {
        let mut out = String::new();
        let mut it = s.chars();
        while let Some(c) = it.next() {
            if c == '\x1b' {
                for c in it.by_ref() {
                    if c == 'm' {
                        break;
                    }
                }
            } else {
                out.push(c);
            }
        }
        out
    };
    assert_eq!(strip(&colored), plain);
}
/// Regression: a styled part ending in a space (objdiff renders the branch
/// arrow as `" ~> "`) put that space inside the escape wrap, so trimming
/// the finished colored string was a no-op and the colored row came out one
/// column wider than the plain one.
#[test]
fn assemble_trims_trailing_space_inside_a_styled_part() {
    let (text, colored) = assemble(vec![
        ("", "jl short 5".to_string()),
        ("\x1b[35m", " ~> ".to_string()),
    ]);
    assert_eq!(text, "jl short 5 ~>");
    assert_eq!(colored, "jl short 5\x1b[35m ~>\x1b[0m");
    assert_eq!(strip_ansi(&colored), text);
}

/// Trailing pad parts are dropped entirely, not left as empty escapes.
#[test]
fn assemble_drops_trailing_padding_parts() {
    let (text, colored) = assemble(vec![
        ("\x1b[2m", "0:".to_string()),
        ("", "   ".to_string()),
    ]);
    assert_eq!(text, "0:");
    assert_eq!(colored, "\x1b[2m0:\x1b[0m");
}

/// Stripping escapes must always recover the plain form, whatever the mix.
#[test]
fn assemble_colored_strips_back_to_plain() {
    let (text, colored) = assemble(vec![
        ("\x1b[2m", "7:".to_string()),
        ("", "  ".to_string()),
        ("", "or ".to_string()),
        ("\x1b[35m", "ch".to_string()),
        ("", ", ".to_string()),
        ("\x1b[33m", "0xfc".to_string()),
    ]);
    assert_eq!(strip_ansi(&colored), text);
    assert_eq!(text, "7:  or ch, 0xfc");
}

#[test]
fn assemble_handles_only_whitespace() {
    let (text, colored) = assemble(vec![("", "   ".to_string())]);
    assert_eq!(text, "");
    assert_eq!(colored, "");
}

#[test]
fn an_empty_last_part_is_dropped_like_a_blank_one() {
    let (text, colored) = assemble(vec![("", "or ".to_string()), ("\x1b[33m", String::new())]);
    assert_eq!((text.as_str(), colored.as_str()), ("or", "or"));
    let (text, colored) =
        assemble(vec![("\x1b[2m", "a\t".to_string()), ("", " ".to_string()), ("\x1b[2m", String::new())]);
    assert_eq!((text.as_str(), colored.as_str()), ("a", "\x1b[2ma\x1b[0m"));
    assert_eq!(assemble(vec![("\x1b[2m", String::new())]), (String::new(), String::new()));
}

fn segment(text: SegmentText, color: SegmentColor, pad_to: u8) -> Segment {
    Segment { text, color, pad_to }
}

#[test]
fn a_row_reads_its_segments_padded_and_colored() {
    let segments = vec![
        segment(SegmentText::Line(7), SegmentColor::Dim, 5),
        segment(SegmentText::Address(0x1a), SegmentColor::Dim, 5),
        segment(SegmentText::BranchArrow, SegmentColor::Rotating(3), 0),
        segment(SegmentText::Opcode("mov".to_string()), SegmentColor::Replace, 10),
        segment(SegmentText::Argument("eax".to_string()), SegmentColor::Rotating(8), 0),
        segment(SegmentText::Basic(", ".to_string()), SegmentColor::Normal, 0),
        segment(
            SegmentText::Symbol("?x@@3HA".to_string(), Some("int x".to_string())),
            SegmentColor::Bright,
            0,
        ),
        segment(SegmentText::Addend(68), SegmentColor::Bright, 0),
        segment(SegmentText::Spacing(3), SegmentColor::Normal, 0),
        segment(SegmentText::Eol, SegmentColor::Normal, 0),
    ];
    let row = render_row(&DiffRow { segments, changed: true, branch_to: Some((4, 2)) });
    assert_eq!(row.text, "1a:      mov       eax, int x+0x44");
    assert_eq!(strip_ansi(&row.colored), row.text);
    assert!(row.colored.starts_with("\x1b[2m1a:\x1b[0m  \x1b[31m    \x1b[0m\x1b[36mmov \x1b[0m"), "{:?}", row.colored);
    assert!(row.colored.contains("\x1b[34meax\x1b[0m, \x1b[97mint x\x1b[0m\x1b[97m+0x44\x1b[0m"), "{:?}", row.colored);
    assert!(row.changed);
    assert_eq!(row.branch_to, Some((4, 2)));
    assert_eq!(row.width(), row.text.chars().count());
    assert_eq!(row.display(false), row.text);
    assert_eq!(row.display(true), row.colored);
}

fn one_segment(text: SegmentText) -> String {
    render_row(&DiffRow { segments: vec![segment(text, SegmentColor::Normal, 0)], changed: false, branch_to: None }).text
}

#[test]
fn addends_read_with_their_sign() {
    assert_eq!(one_segment(SegmentText::Addend(1)), "+0x1");
    assert_eq!(one_segment(SegmentText::Addend(-255)), "-0xff");
    assert_eq!(one_segment(SegmentText::Addend(0)), "");
    assert_eq!(one_segment(SegmentText::Addend(i64::MIN)), "-0x8000000000000000");
    assert_eq!(one_segment(SegmentText::Addend(i64::MAX)), "+0x7fffffffffffffff");
}

#[test]
fn a_zero_addend_leaves_nothing_behind() {
    let segments = vec![
        segment(SegmentText::Argument("x ".to_string()), SegmentColor::Normal, 0),
        segment(SegmentText::Addend(0), SegmentColor::Bright, 0),
    ];
    let row = render_row(&DiffRow { segments, changed: false, branch_to: None });
    assert_eq!((row.text.as_str(), row.colored.as_str()), ("x", "x"));
}

#[test]
fn a_symbol_without_a_demangled_name_reads_as_it_is() {
    assert_eq!(one_segment(SegmentText::Symbol("_f".to_string(), None)), "_f");
    assert_eq!(one_segment(SegmentText::BranchDest(0x2f)), "2f");
}

#[test]
fn segment_colors_have_their_escapes() {
    let colored = |color: SegmentColor| {
        let segments = vec![segment(SegmentText::Basic("x".to_string()), color, 0)];
        render_row(&DiffRow { segments, changed: false, branch_to: None }).colored
    };
    assert_eq!(colored(SegmentColor::Normal), "x");
    assert_eq!(colored(SegmentColor::Dim), "\x1b[2mx\x1b[0m");
    assert_eq!(colored(SegmentColor::Bright), "\x1b[97mx\x1b[0m");
    assert_eq!(colored(SegmentColor::DataFlow), "\x1b[96mx\x1b[0m");
    assert_eq!(colored(SegmentColor::Replace), "\x1b[36mx\x1b[0m");
    assert_eq!(colored(SegmentColor::Delete), "\x1b[31mx\x1b[0m");
    assert_eq!(colored(SegmentColor::Insert), "\x1b[32mx\x1b[0m");
    let hues = ["35", "33", "34", "31", "32", "36"];
    for i in 0..12u8 {
        assert_eq!(colored(SegmentColor::Rotating(i)), format!("\x1b[{}mx\x1b[0m", hues[i as usize % 6]));
    }
}

#[test]
fn a_branch_color_goes_by_the_low_byte_of_its_index() {
    assert_eq!(branch_color(0), "\x1b[35m");
    assert_eq!(branch_color(256), "\x1b[35m");
    assert_eq!(branch_color(261), "\x1b[36m");
}

#[test]
fn percentages_turn_green_at_one_hundred() {
    assert_eq!(paint_pct(Some(&percent(100.0)), true), "\x1b[32m100.00\x1b[0m");
    assert_eq!(paint_pct(Some(&percent(100.5)), true), "\x1b[32m100.50\x1b[0m");
    assert_eq!(paint_pct(Some(&percent(99.99)), true), "\x1b[31m99.99\x1b[0m");
    assert_eq!(paint_pct(Some(&percent(0.0)), false), "0.00");
    assert_eq!(paint_pct(None, true), "-");
    assert_eq!(fmt_pct(None), "-");
    for bits in [f32::INFINITY, f32::NAN, -1.0, -100.0, f32::MIN_POSITIVE, 99.99999, 100.00001] {
        let green = paint_pct(Some(&percent(bits)), true).starts_with("\x1b[32m");
        assert_eq!(green, bits >= 100.0, "{bits}");
    }
}

#[test]
fn a_whole_table_reads_as_laid_out() {
    let mut rows = vec![row("0: a", false), row("1: jmp", true)];
    rows[1].branch_to = Some((0, 1));
    let view = FnView {
        name: "f".to_string(),
        size: 2,
        target: Some(SideView { match_percent: None, rows }),
        base: Some(side(100.0, vec![row("0: a", false)])),
    };
    let views = vec![view];
    let out = render_diff(&views, None, false, true);
    let expected = format!(
        "==== f  TARGET -%  OURS 100.00% ====\n{:<48} | OURS\n{}\n{:<48} |  | 0: a\n{:<48} |<>|\n",
        "TARGET",
        "-".repeat(54),
        ",-> 0: a",
        "`-- 1: jmp",
    );
    assert_eq!(out, expected);
    let colored = render_diff(&views, None, true, true);
    assert_eq!(strip_ansi(&colored), out);
    assert!(colored.contains("\x1b[33m,\x1b[0m\x1b[33m->\x1b[0m "), "{colored:?}");
}

#[test]
fn functions_are_parted_by_a_blank_line() {
    let out = render_diff(&vec![foo_view(), bar_view()], None, false, false);
    assert_eq!(out.matches("\n\n====").count(), 1);
}

#[test]
fn an_inner_branch_is_drawn_nearer_the_text() {
    let mut rows: Vec<Row> = (0..6).map(|i| branch_row(&format!("{i}: x"), None)).collect();
    rows[5].branch_to = Some((0, 0));
    rows[2].branch_to = Some((4, 1));
    rows[3].branch_to = Some((3, 2));
    let lanes = assign_lanes(&rows);
    assert_eq!(lanes.len(), 2, "a branch to its own row is not drawn");
    assert_eq!((lanes[0].lo, lanes[0].hi, lanes[0].lane), (2, 4, 1));
    assert_eq!((lanes[1].lo, lanes[1].hi, lanes[1].lane), (0, 5, 0));
}

#[test]
fn a_lane_is_reused_before_and_behind_what_stands_in_it() {
    let mut rows: Vec<Row> = (0..5).map(|_| branch_row("x", None)).collect();
    rows[2].branch_to = Some((0, 0));
    rows[4].branch_to = Some((3, 1));
    let (g, w) = branch_gutter(&rows, false);
    assert_eq!(w, 4);
    assert_eq!(g, vec![",-> ", "|   ", "`-- ", ",-> ", "`-- "]);
}

#[test]
fn the_innermost_branch_takes_the_head_of_a_shared_row() {
    let rows = vec![
        branch_row("0: dest of both", None),
        branch_row("1: inner", Some((0, 1))),
        branch_row("2: outer", Some((0, 0))),
    ];
    let (g, w) = branch_gutter(&rows, false);
    assert_eq!(w, 5);
    assert_eq!(g, vec![",,-> ", "|`-- ", "`--- "]);
}

#[test]
fn a_listing_shows_the_target_alone() {
    let views = vec![foo_view(), bar_view()];
    assert_eq!(render_listing(&views, "?bar@@YAXXZ", false, false), "==== ?bar@@YAXXZ (size 4) ====\n  4: ret\n");
    assert_eq!(render_listing(&views, "nope", false, true), "==== nope (size ?) ====\n  <not found in target>\n");
    let colored = render_listing(&views, "?bar@@YAXXZ", true, true);
    assert_eq!(strip_ansi(&colored), render_listing(&views, "?bar@@YAXXZ", false, true));
}

#[test]
fn a_listing_takes_the_last_function_under_a_key() {
    let mut first = foo_view();
    first.name = "_f@4".to_string();
    let mut last = bar_view();
    last.name = "@f@8".to_string();
    let mut untargeted = bar_view();
    untargeted.name = "g".to_string();
    untargeted.target = None;
    let views = vec![first, last, untargeted];
    assert_eq!(render_listing(&views, "f", false, false), "==== f (size 4) ====\n  4: ret\n");
    assert_eq!(render_listing(&views, "g", false, false), "==== g (size 4) ====\n  <not found in target>\n");
}
