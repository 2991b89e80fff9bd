//! Terminal colors: ANSI escapes around text, and the text that is left when
//! they are taken away.
use vstd::prelude::*;

use crate::text::{
    first_of, is_white_space, lemma_first_of, lemma_first_of_is, lemma_trim_end, lemma_trim_end_concat, trim_end,
};

verus! {

pub const RESET: &'static str = "\x1b[0m";

pub const RED: &'static str = "\x1b[31m";

pub const GREEN: &'static str = "\x1b[32m";

pub const DIM: &'static str = "\x1b[2m";

/// `s` between an escape and the reset, where there is an escape to put and
/// color is on; otherwise `s` alone.
pub open spec fn styled(s: Seq<char>, escape: Seq<char>, color: bool) -> Seq<char> {
    if color && escape.len() > 0 {
        escape + s + RESET@
    } else {
        s
    }
}

/// Appends `s` to `out`, styled.
pub fn append_styled(out: &mut String, s: &str, escape: &str, color: bool)
    ensures
        final(out)@ == old(out)@ + styled(s@, escape@, color),
{
    let ghost start = out@;
    if color && !escape.is_empty() {
        out.append(escape);
        out.append(s);
        out.append(RESET);
        assert(((start + escape@) + s@) + RESET@ =~= start + (escape@ + s@ + RESET@));
    } else {
        out.append(s);
    }
}

/// Wraps `s` in `escape` only when colorizing, so callers can build a line
/// without branching at every field.
pub fn paint(s: &str, escape: &str, color: bool) -> (r: String)
    ensures
        r@ == styled(s@, escape@, color),
{
    let mut out = String::new();
    append_styled(&mut out, s, escape, color);
    assert(Seq::<char>::empty() + styled(s@, escape@, color) =~= styled(s@, escape@, color));
    out
}

/// What a terminal shows of `s`: `s` without its escapes, each of which runs
/// from an escape character to the next `m`.
pub open spec fn visible(s: Seq<char>) -> Seq<char>
    decreases s.len(),
{
    if s.len() == 0 {
        Seq::empty()
    } else if s[0] == '\x1b' {
        let n = first_of(s, 'm');
        if 0 <= n < s.len() {
            visible(s.skip(n + 1))
        } else {
            Seq::empty()
        }
    } else {
        seq![s[0]] + visible(s.skip(1))
    }
}

/// Whether every escape in `s` ends within `s`.
pub open spec fn escapes_end(s: Seq<char>) -> bool
    decreases s.len(),
{
    if s.len() == 0 {
        true
    } else if s[0] == '\x1b' {
        let n = first_of(s, 'm');
        0 <= n < s.len() && escapes_end(s.skip(n + 1))
    } else {
        escapes_end(s.skip(1))
    }
}

/// Whether `s` is shown as it stands.
pub open spec fn is_plain(s: Seq<char>) -> bool {
    !s.contains('\x1b')
}

/// Whether `e` is one escape and nothing more.
pub open spec fn is_escape(e: Seq<char>) -> bool {
    e.len() > 0 && e[0] == '\x1b' && first_of(e, 'm') == e.len() - 1
}

/// Text whose escapes end shows, when more follows, what it shows alone and
/// after it what the rest shows.
pub proof fn lemma_visible_concat(a: Seq<char>, b: Seq<char>)
    requires
        escapes_end(a),
    ensures
        visible(a + b) == visible(a) + visible(b),
        escapes_end(b) ==> escapes_end(a + b),
    decreases a.len(),
{
    if a.len() == 0 {
        assert(a + b =~= b);
        assert(visible(a) + visible(b) =~= visible(b));
    } else if a[0] == '\x1b' {
        let n = first_of(a, 'm');
        lemma_first_of(a, 'm');
        assert forall|j: int| 0 <= j < n implies (a + b)[j] != 'm' by {
            assert((a + b)[j] == a[j]);
        }
        lemma_first_of_is(a + b, 'm', n);
        lemma_visible_concat(a.skip(n + 1), b);
        assert((a + b).skip(n + 1) =~= a.skip(n + 1) + b);
    } else {
        lemma_visible_concat(a.skip(1), b);
        assert((a + b).skip(1) =~= a.skip(1) + b);
        assert(seq![a[0]] + (visible(a.skip(1)) + visible(b)) =~= (seq![a[0]] + visible(a.skip(1)))
            + visible(b));
    }
}

/// Plain texts make plain text together.
pub proof fn lemma_plain_concat(a: Seq<char>, b: Seq<char>)
    requires
        is_plain(a),
        is_plain(b),
    ensures
        is_plain(a + b),
{
    if (a + b).contains('\x1b') {
        let k = choose|k: int| 0 <= k < (a + b).len() && (a + b)[k] == '\x1b';
        if k < a.len() {
            assert(a[k] == '\x1b');
        } else {
            assert(b[k - a.len()] == '\x1b');
        }
    }
}

/// Plain text is shown as it stands.
pub proof fn lemma_visible_plain(s: Seq<char>)
    requires
        is_plain(s),
    ensures
        visible(s) == s,
        escapes_end(s),
    decreases s.len(),
{
    if s.len() > 0 {
        assert(s.contains(s[0]));
        let t = s.skip(1);
        assert(is_plain(t)) by {
            if t.contains('\x1b') {
                let i = choose|i: int| 0 <= i < t.len() && t[i] == '\x1b';
                assert(s[i + 1] == '\x1b');
            }
        }
        lemma_visible_plain(t);
        assert(seq![s[0]] + t =~= s);
    }
}

/// An escape shows nothing.
pub proof fn lemma_visible_escape(e: Seq<char>)
    requires
        is_escape(e),
    ensures
        visible(e) == Seq::<char>::empty(),
        escapes_end(e),
{
    assert(e.skip(e.len() as int) =~= Seq::<char>::empty());
    assert(visible(e.skip(e.len() as int)) =~= Seq::<char>::empty());
    assert(escapes_end(e.skip(e.len() as int)));
}

/// The reset is one escape.
pub proof fn lemma_reset_is_escape()
    ensures
        is_escape(RESET@),
{
    reveal_strlit("\x1b[0m");
    lemma_first_of_is(RESET@, 'm', 3);
}

/// Coloring text changes nothing in what is shown of it.
pub proof fn lemma_styled_visible(s: Seq<char>, escape: Seq<char>, color: bool)
    requires
        escapes_end(s),
        escape.len() == 0 || is_escape(escape),
    ensures
        visible(styled(s, escape, color)) == visible(s),
        escapes_end(styled(s, escape, color)),
{
    if color && escape.len() > 0 {
        lemma_reset_is_escape();
        lemma_visible_escape(escape);
        lemma_visible_escape(RESET@);
        lemma_visible_concat(escape, s);
        lemma_visible_concat(escape + s, RESET@);
        assert(Seq::<char>::empty() + visible(s) =~= visible(s));
        assert(visible(s) + Seq::<char>::empty() =~= visible(s));
    }
}

/// Whether a terminal shows `colored` as it shows the plain text.
pub open spec fn shows(colored: Seq<char>, plain: Seq<char>) -> bool {
    escapes_end(colored) && visible(colored) == plain
}

/// Texts show together what each shows.
pub proof fn lemma_shows_concat(c1: Seq<char>, p1: Seq<char>, c2: Seq<char>, p2: Seq<char>)
    requires
        shows(c1, p1),
        shows(c2, p2),
    ensures
        shows(c1 + c2, p1 + p2),
{
    lemma_visible_concat(c1, c2);
}

/// Plain text shows itself.
pub proof fn lemma_shows_plain(s: Seq<char>)
    requires
        is_plain(s),
    ensures
        shows(s, s),
{
    lemma_visible_plain(s);
}

/// Styled plain text shows the text.
pub proof fn lemma_shows_styled(s: Seq<char>, escape: Seq<char>, color: bool)
    requires
        is_plain(s),
        escape.len() == 0 || is_escape(escape),
    ensures
        shows(styled(s, escape, color), s),
{
    lemma_visible_plain(s);
    lemma_styled_visible(s, escape, color);
}

/// Each color is one escape.
pub proof fn lemma_colors_are_escapes()
    ensures
        is_escape(RED@),
        is_escape(GREEN@),
{
    reveal_strlit("\x1b[31m");
    reveal_strlit("\x1b[32m");
    lemma_first_of_is(RED@, 'm', 4);
    lemma_first_of_is(GREEN@, 'm', 4);
}

/// Whether `colored` shows the plain text and still does when the whitespace
/// at the end of both is gone.
pub open spec fn trims_alike(colored: Seq<char>, plain: Seq<char>) -> bool {
    &&& shows(colored, plain)
    &&& shows(trim_end(colored), trim_end(plain))
    &&& trim_end(colored).len() == 0 <==> trim_end(plain).len() == 0
}

/// Plain text shows itself, trimmed or not.
pub proof fn lemma_plain_trims_alike(s: Seq<char>)
    requires
        is_plain(s),
    ensures
        trims_alike(s, s),
{
    lemma_visible_plain(s);
    let t = trim_end(s);
    lemma_trim_end(s);
    if t.contains('\x1b') {
        let k = choose|k: int| 0 <= k < t.len() && t[k] == '\x1b';
        assert(s[k] == '\x1b');
    }
    lemma_visible_plain(t);
}

/// Styled text that ends in no whitespace shows the text, trimmed or not.
pub proof fn lemma_styled_trims_alike(s: Seq<char>, escape: Seq<char>, color: bool)
    requires
        is_plain(s),
        s.len() > 0,
        !is_white_space(s.last()),
        escape.len() == 0 || is_escape(escape),
    ensures
        trims_alike(styled(s, escape, color), s),
{
    lemma_plain_trims_alike(s);
    lemma_styled_visible(s, escape, color);
    if color && escape.len() > 0 {
        reveal_strlit("\x1b[0m");
        assert(styled(s, escape, color).last() == 'm');
    }
}

/// Texts that trim alike do so together.
pub proof fn lemma_concat_trims_alike(c1: Seq<char>, p1: Seq<char>, c2: Seq<char>, p2: Seq<char>)
    requires
        trims_alike(c1, p1),
        trims_alike(c2, p2),
    ensures
        trims_alike(c1 + c2, p1 + p2),
{
    lemma_visible_concat(c1, c2);
    lemma_trim_end_concat(c1, c2);
    lemma_trim_end_concat(p1, p2);
    lemma_visible_concat(c1, trim_end(c2));
}

/// Text that shows nothing is all escapes, so it ends as one does.
proof fn lemma_nothing_shown(s: Seq<char>)
    requires
        s.len() > 0,
        escapes_end(s),
        visible(s).len() == 0,
    ensures
        s.last() == 'm',
    decreases s.len(),
{
    let n = first_of(s, 'm');
    lemma_first_of(s, 'm');
    let rest = s.skip(n + 1);
    if rest.len() > 0 {
        lemma_nothing_shown(rest);
        assert(rest.last() == s.last());
    }
}

/// Text that shows no whitespace at its end has none there.
pub proof fn lemma_shown_end(s: Seq<char>)
    requires
        escapes_end(s),
        visible(s).len() > 0,
        !is_white_space(visible(s).last()),
    ensures
        s.len() > 0,
        !is_white_space(s.last()),
        trim_end(s) == s,
    decreases s.len(),
{
    if s[0] == '\x1b' {
        let n = first_of(s, 'm');
        lemma_first_of(s, 'm');
        let rest = s.skip(n + 1);
        lemma_shown_end(rest);
        assert(rest.last() == s.last());
    } else {
        let rest = s.skip(1);
        if rest.len() > 0 {
            if visible(rest).len() == 0 {
                lemma_nothing_shown(rest);
            } else {
                assert(visible(s).last() == visible(rest).last());
                lemma_shown_end(rest);
            }
            assert(rest.last() == s.last());
        } else {
            assert(visible(rest) =~= Seq::<char>::empty());
            assert(visible(s) =~= seq![s[0]]);
        }
    }
}

/// Text in color stands between its escape and the reset; without color, or
/// without an escape, it stands alone.
pub proof fn law_color_is_put_around_text(s: Seq<char>, escape: Seq<char>)
    ensures
        escape.len() > 0 ==> styled(s, escape, true) == escape + s + "\x1b[0m"@,
        styled(s, Seq::empty(), true) == s,
        styled(s, escape, false) == s,
        RED@ == "\x1b[31m"@,
        GREEN@ == "\x1b[32m"@,
{
}

} // verus!
