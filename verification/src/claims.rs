//! Claims: the symbols of a unit that were renamed since its split file was first
//! committed, read from the file's history.
use vstd::prelude::*;

use crate::num::{digits, digits_text};
use crate::order::{lemma_selects_more, selects};
use crate::text::{
    as_lines, begins_with, first_of, is_white_space, lemma_as_lines_more, lemma_first_of_is, lemma_trim_end,
    lemma_trim_end_concat, lemma_trim_start_white, lines, slice_text, text_lines, texts, to_chars, trim_end, trim_start,
    trimmed_len,
};

verus! {

/// A removed or added line of a diff that holds nothing but the key of an
/// object.
pub const KEY_PATTERN: &'static str = "^([-+])\\s*\"([^\"]+)\":\\s*\\{\\s*$";

/// What a line reads that holds nothing but the key of an object behind its sign:
/// the sign and the key.
pub open spec fn key_line(line: Seq<char>) -> Option<(char, Seq<char>)> {
    if line.len() == 0 || !(line[0] == '-' || line[0] == '+') {
        None
    } else {
        let quote = trim_start(line.skip(1));
        if quote.len() == 0 || quote[0] != '"' {
            None
        } else {
            let key = quote.skip(1);
            let end = first_of(key, '"');
            let behind = key.skip(end);
            if end == 0 || !begins_with(behind, "\":"@) {
                None
            } else {
                let brace = trim_start(behind.skip(2));
                if brace.len() == 0 || brace[0] != '{' || trim_start(brace.skip(1)).len() > 0 {
                    None
                } else {
                    Some((line[0], key.take(end)))
                }
            }
        }
    }
}

/// `regex::Regex::captures` gives, for the pattern of a key line, the sign and
/// the key of a line that is one, and nothing for any other.
#[verifier::external_body]
fn key_captures(pattern: &str, line: &str) -> (r: Option<(String, String)>)
    requires
        pattern@ == KEY_PATTERN@,
    ensures
        match r {
            Some(c) => match key_line(line@) {
                Some(found) => (c.0@, c.1@) == (seq![found.0], found.1),
                None => false,
            },
            None => key_line(line@) is None,
        },
{
    let re = regex::Regex::new(pattern).unwrap();
    re.captures(line).map(|c| (c[1].to_string(), c[2].to_string()))
}

/// The claim that a line and the one after it make: a removed key, and the key
/// added in its place.
pub open spec fn claim_at(ls: Seq<Seq<char>>, i: int) -> Option<(Seq<char>, Seq<char>)> {
    match (key_line(ls[i]), key_line(ls[i + 1])) {
        (Some(a), Some(b)) => if a.0 == '-' && b.0 == '+' {
            Some((a.1, b.1))
        } else {
            None
        },
        _ => None,
    }
}

/// The claims that the first `n` lines make, each with the one after it.
pub open spec fn claims_in(ls: Seq<Seq<char>>, n: int) -> Seq<(Seq<char>, Seq<char>)>
    decreases n,
{
    if n <= 0 {
        Seq::empty()
    } else {
        match claim_at(ls, n - 1) {
            Some(pair) => claims_in(ls, n - 1).push(pair),
            None => claims_in(ls, n - 1),
        }
    }
}

/// What a list of claims holds.
pub open spec fn claim_facts(pairs: Seq<(String, String)>) -> Seq<(Seq<char>, Seq<char>)> {
    Seq::new(pairs.len(), |i: int| (pairs[i].0@, pairs[i].1@))
}

/// What the pattern captured of a line holds.
spec fn captured(c: Option<(String, String)>, line: Seq<char>) -> bool {
    match c {
        Some(c) => match key_line(line) {
            Some(found) => (c.0@, c.1@) == (seq![found.0], found.1),
            None => false,
        },
        None => key_line(line) is None,
    }
}

/// Reads a unit's claims (original and claimed name) from the diff of its split
/// file: pairs up adjacent `-"old": {` / `+"new": {` lines.
pub fn claim_pairs(diff: &str) -> (r: Vec<(String, String)>)
    ensures
        claim_facts(r@) == claims_in(lines(diff@), lines(diff@).len() - 1),
{
    let ls = text_lines(diff);
    let ghost all = lines(diff@);
    let n = ls.len();
    let mut pairs: Vec<(String, String)> = Vec::new();
    assert(claim_facts(pairs@) =~= Seq::empty());
    assert(all.len() == n);
    if n == 0 {
        return pairs;
    }
    assert(all[0] == ls@[0]@);
    let mut last = key_captures(KEY_PATTERN, ls[0].as_str());
    let mut i: usize = 1;
    while i < n
        invariant
            1 <= i <= n,
            n == ls@.len(),
            n == all.len(),
            all == texts(ls@),
            captured(last, all[i - 1]),
            claim_facts(pairs@) == claims_in(all, i - 1),
        decreases n - i,
    {
        assert(all[i as int] == ls@[i as int]@);
        let here = key_captures(KEY_PATTERN, ls[i].as_str());
        if let (Some(a), Some(b)) = (&last, &here) {
            let removed = crate::text::same_text(a.0.as_str(), "-");
            let added = crate::text::same_text(b.0.as_str(), "+");
            proof {
                reveal_strlit("-");
                reveal_strlit("+");
                assert("-"@ =~= seq!['-']);
                assert("+"@ =~= seq!['+']);
                let x = key_line(all[i - 1])->0;
                let y = key_line(all[i as int])->0;
                assert(a.0@[0] == x.0);
                assert(b.0@[0] == y.0);
            }
            if removed && added {
                let ghost before = claim_facts(pairs@);
                pairs.push((a.1.as_str().to_owned(), b.1.as_str().to_owned()));
                assert(claim_facts(pairs@) =~= before.push((a.1@, b.1@)));
                assert(claim_at(all, i - 1) == Some((a.1@, b.1@)));
            } else {
                assert(claim_at(all, i - 1) is None);
            }
        }
        last = here;
        i = i + 1;
    }
    pairs
}

/// The last word of a text; none where it is blank.
pub open spec fn last_word(s: Seq<char>) -> Option<Seq<char>> {
    let t = trim_end(s);
    if t.len() == 0 {
        None
    } else {
        Some(t.skip(word_start(t, t.len() as int)))
    }
}

/// Where the word that ends before `n` begins.
pub open spec fn word_start(s: Seq<char>, n: int) -> int
    decreases n,
{
    if n <= 0 || is_white_space(s[n - 1]) {
        n
    } else {
        word_start(s, n - 1)
    }
}

/// The commit that first added a file: the last that the log lists; none where
/// the file is not tracked.
pub fn first_commit(log: &str) -> (r: Option<String>)
    ensures
        crate::text::opt_text(r) == last_word(log@),
{
    let v = to_chars(log);
    let n = trimmed_len(&v, v.len());
    assert(v@.take(v@.len() as int) =~= v@);
    let ghost t = trim_end(log@);
    assert(t =~= v@.take(n as int));
    if n == 0 {
        return None;
    }
    let mut i: usize = n;
    while i > 0 && !v[i - 1].is_whitespace()
        invariant
            i <= n,
            n <= v@.len(),
            t == v@.take(n as int),
            word_start(t, n as int) == word_start(t, i as int),
        decreases i,
    {
        assert(t[i - 1] == v@[i - 1]);
        i = i - 1;
    }
    if i > 0 {
        assert(t[i - 1] == v@[i - 1]);
    }
    let r = slice_text(&v, i, n);
    assert(r@ =~= t.skip(i as int));
    Some(r)
}

/// The lines that name the first `n` claims.
pub open spec fn pair_lines(pairs: Seq<(Seq<char>, Seq<char>)>, n: nat) -> Seq<char>
    decreases n,
{
    if n == 0 || n > pairs.len() {
        Seq::empty()
    } else {
        pair_lines(pairs, (n - 1) as nat) + "  "@ + pairs[n - 1].0 + "  ->  "@ + pairs[n - 1].1 + "\n"@
    }
}

/// What is reported of a unit: its claims, or that its split file is not
/// tracked. Where no unit was asked for by name, one without claims is passed
/// over.
pub open spec fn unit_report(unit: Seq<char>, pairs: Option<Seq<(Seq<char>, Seq<char>)>>, named: bool) -> Seq<char> {
    match pairs {
        None => if named {
            unit + ": split config not tracked in git\n"@
        } else {
            Seq::empty()
        },
        Some(pairs) => if pairs.len() > 0 {
            unit + ": "@ + digits(pairs.len(), 10) + " claim(s) (original -> claimed):\n"@ + pair_lines(
                pairs,
                pairs.len(),
            )
        } else if named {
            unit + ": 0 claim(s)\n"@
        } else {
            Seq::empty()
        },
    }
}

fn render_pairs(pairs: &Vec<(String, String)>) -> (r: String)
    ensures
        r@ == pair_lines(claim_facts(pairs@), pairs@.len()),
{
    let ghost all = claim_facts(pairs@);
    let mut s = String::new();
    let n = pairs.len();
    let mut i: usize = 0;
    while i < n
        invariant
            i <= n,
            n == pairs@.len(),
            all == claim_facts(pairs@),
            s@ == pair_lines(all, i as nat),
        decreases n - i,
    {
        assert(all[i as int] == (pairs@[i as int].0@, pairs@[i as int].1@));
        s.append("  ");
        s.append(pairs[i].0.as_str());
        s.append("  ->  ");
        s.append(pairs[i].1.as_str());
        s.append("\n");
        i = i + 1;
    }
    s
}

/// Reports a unit's claims.
pub fn render_claims(unit: &str, pairs: Option<&Vec<(String, String)>>, named: bool) -> (r: String)
    ensures
        r@ == unit_report(
            unit@,
            match pairs {
                Some(p) => Some(claim_facts(p@)),
                None => None,
            },
            named,
        ),
{
    match pairs {
        None => {
            if !named {
                return String::new();
            }
            let mut s = unit.to_owned();
            s.append(": split config not tracked in git\n");
            s
        },
        Some(pairs) => {
            assert(claim_facts(pairs@).len() == pairs@.len());
            if pairs.len() > 0 {
                let mut s = unit.to_owned();
                s.append(": ");
                s.append(digits_text(pairs.len() as u64, 10).as_str());
                s.append(" claim(s) (original -> claimed):\n");
                s.append(render_pairs(pairs).as_str());
                s
            } else if named {
                let mut s = unit.to_owned();
                s.append(": 0 claim(s)\n");
                s
            } else {
                String::new()
            }
        },
    }
}

/// The last line of a report on all units.
pub fn render_total(total: usize) -> (r: String)
    ensures
        r@ == "total: "@ + digits(total as nat, 10) + " claim(s)\n"@,
{
    let mut s = String::from_str("total: ");
    s.append(digits_text(total as u64, 10).as_str());
    s.append(" claim(s)\n");
    s
}

/// How many claims the units have together.
pub open spec fn total_of(counts: Seq<usize>, n: nat) -> nat
    decreases n,
{
    if n == 0 || n > counts.len() {
        0
    } else {
        total_of(counts, (n - 1) as nat) + counts[n - 1] as nat
    }
}

proof fn lemma_total_grows(counts: Seq<usize>, m: nat, n: nat)
    requires
        m <= n <= counts.len(),
    ensures
        total_of(counts, m) <= total_of(counts, n),
    decreases n,
{
    if m < n {
        lemma_total_grows(counts, m, (n - 1) as nat);
    }
}

/// Adds up the units' claims, where the sum fits.
pub fn total_claims(counts: &Vec<usize>) -> (r: Option<usize>)
    ensures
        r is Some <==> total_of(counts@, counts@.len()) <= usize::MAX,
        r is Some ==> r->0 == total_of(counts@, counts@.len()),
{
    let n = counts.len();
    let mut total: usize = 0;
    let mut i: usize = 0;
    while i < n
        invariant
            i <= n,
            n == counts@.len(),
            total == total_of(counts@, i as nat),
        decreases n - i,
    {
        match total.checked_add(counts[i]) {
            Some(sum) => {
                total = sum;
            },
            None => {
                proof {
                    lemma_total_grows(counts@, (i + 1) as nat, n as nat);
                }
                return None;
            },
        }
        i = i + 1;
    }
    Some(total)
}

/// The key that a line of a diff reads behind a sign, where that is all it holds.
pub open spec fn key_behind(line: Seq<char>, sign: char) -> Option<Seq<char>> {
    match key_line(line) {
        Some((own, key)) => if own == sign {
            Some(key)
        } else {
            None
        },
        None => None,
    }
}

/// Every two adjacent lines of a diff that are a removed key and an added one
/// make a claim, from the first to the last, and nothing else does: the claims
/// are as many as the positions of such lines, and each is what stands at its
/// own. The positions are given.
pub proof fn law_every_adjacent_pair_is_a_claim(ls: Seq<Seq<char>>) -> (order: Seq<int>)
    ensures
        selects(
            order,
            ls.len() - 1,
            |i: int| key_behind(ls[i], '-') is Some && key_behind(ls[i + 1], '+') is Some,
        ),
        claims_in(ls, ls.len() - 1).len() == order.len(),
        forall|k: int|
            0 <= k < order.len() ==> #[trigger] claims_in(ls, ls.len() - 1)[k] == (
                key_behind(ls[order[k]], '-')->0,
                key_behind(ls[order[k] + 1], '+')->0,
            ),
{
    lemma_claim_positions(ls, ls.len() - 1)
}

proof fn lemma_claim_positions(ls: Seq<Seq<char>>, n: int) -> (order: Seq<int>)
    requires
        n < ls.len(),
    ensures
        selects(order, n, |i: int| key_behind(ls[i], '-') is Some && key_behind(ls[i + 1], '+') is Some),
        claims_in(ls, n).len() == order.len(),
        forall|k: int|
            0 <= k < order.len() ==> #[trigger] claims_in(ls, n)[k] == (
                key_behind(ls[order[k]], '-')->0,
                key_behind(ls[order[k] + 1], '+')->0,
            ),
    decreases n,
{
    let wanted = |i: int| key_behind(ls[i], '-') is Some && key_behind(ls[i + 1], '+') is Some;
    if n <= 0 {
        Seq::empty()
    } else {
        let before = lemma_claim_positions(ls, n - 1);
        lemma_selects_more(before, n - 1, wanted);
        if wanted(n - 1) {
            before.push(n - 1)
        } else {
            before
        }
    }
}

/// The claims of a diff that goes on begin with those of the diff.
pub proof fn law_claims_of_a_longer_diff(ls: Seq<Seq<char>>, more: Seq<Seq<char>>)
    ensures
        claims_in(ls, ls.len() - 1).len() <= claims_in(ls + more, (ls + more).len() - 1).len(),
        claims_in(ls + more, (ls + more).len() - 1).take(claims_in(ls, ls.len() - 1).len() as int) == claims_in(
            ls,
            ls.len() - 1,
        ),
{
    lemma_claims_agree(ls, more, ls.len() - 1);
    lemma_claims_grow(ls + more, ls.len() - 1, (ls + more).len() - 1);
}

proof fn lemma_claims_agree(ls: Seq<Seq<char>>, more: Seq<Seq<char>>, n: int)
    requires
        n < ls.len(),
    ensures
        claims_in(ls + more, n) == claims_in(ls, n),
    decreases n,
{
    if n > 0 {
        lemma_claims_agree(ls, more, n - 1);
        assert((ls + more)[n - 1] == ls[n - 1]);
        assert((ls + more)[n] == ls[n]);
    }
}

proof fn lemma_claims_grow(ls: Seq<Seq<char>>, m: int, n: int)
    requires
        m <= n,
    ensures
        claims_in(ls, m).len() <= claims_in(ls, n).len(),
        claims_in(ls, n).take(claims_in(ls, m).len() as int) == claims_in(ls, m),
    decreases n - m,
{
    let first = claims_in(ls, m);
    if m < n {
        lemma_claims_grow(ls, m, n - 1);
        assert(claims_in(ls, n).take(first.len() as int) =~= claims_in(ls, n - 1).take(first.len() as int));
    } else {
        assert(first.take(first.len() as int) =~= first);
    }
}

/// A key line reads its sign, white space, the key in double quotes, a colon and
/// an opening brace, with white space allowed round the brace.
pub proof fn law_key_lines_read_their_key(
    sign: char,
    before: Seq<char>,
    key: Seq<char>,
    between: Seq<char>,
    behind: Seq<char>,
)
    requires
        sign == '-' || sign == '+',
        key.len() > 0,
        !key.contains('"'),
        forall|i: int| 0 <= i < before.len() ==> is_white_space(#[trigger] before[i]),
        forall|i: int| 0 <= i < between.len() ==> is_white_space(#[trigger] between[i]),
        forall|i: int| 0 <= i < behind.len() ==> is_white_space(#[trigger] behind[i]),
    ensures
        key_line(seq![sign] + before + seq!['"'] + key + seq!['"', ':'] + between + seq!['{'] + behind) == Some(
            (sign, key),
        ),
{
    let line = seq![sign] + before + seq!['"'] + key + seq!['"', ':'] + between + seq!['{'] + behind;
    let quote = seq!['"'] + key + seq!['"', ':'] + between + seq!['{'] + behind;
    assert(line.skip(1) =~= before + quote);
    lemma_trim_start_white(before, quote);
    let inner = quote.skip(1);
    assert(inner =~= key + seq!['"', ':'] + between + seq!['{'] + behind);
    assert forall|j: int| 0 <= j < key.len() implies inner[j] != '"' by {
        assert(key.contains(key[j]));
    }
    lemma_first_of_is(inner, '"', key.len() as int);
    let tail = inner.skip(key.len() as int);
    assert(tail =~= seq!['"', ':'] + between + seq!['{'] + behind);
    reveal_strlit("\":");
    assert(tail.subrange(0, 2) =~= "\":"@);
    let brace = seq!['{'] + behind;
    assert(tail.skip(2) =~= between + brace);
    lemma_trim_start_white(between, brace);
    assert(brace.skip(1) =~= behind + Seq::<char>::empty());
    lemma_trim_start_white(behind, Seq::<char>::empty());
    assert(inner.take(key.len() as int) =~= key);
}

/// The first commit is the last word of the log: what is behind it is white, it
/// holds no white space, and what is before it ends in white space or is empty.
pub proof fn law_first_commit_is_the_last_word(before: Seq<char>, word: Seq<char>, behind: Seq<char>)
    requires
        word.len() > 0,
        forall|i: int| 0 <= i < word.len() ==> !is_white_space(#[trigger] word[i]),
        forall|i: int| 0 <= i < behind.len() ==> is_white_space(#[trigger] behind[i]),
        before.len() > 0 ==> is_white_space(before.last()),
    ensures
        last_word(before + word + behind) == Some(word),
        last_word(behind) is None,
{
    lemma_trim_end(behind);
    assert(trim_end(behind).len() == 0) by {
        if trim_end(behind).len() > 0 {
            assert(trim_end(behind).last() == behind[trim_end(behind).len() - 1]);
        }
    }
    let t = before + word;
    lemma_trim_end_concat(t, behind);
    assert(t.last() == word.last());
    assert(trim_end(t) == t);
    lemma_word_start(before, word, word.len() as int);
    assert(t.skip(before.len() as int) =~= word);
}

proof fn lemma_word_start(before: Seq<char>, word: Seq<char>, n: int)
    requires
        0 <= n <= word.len(),
        forall|i: int| 0 <= i < word.len() ==> !is_white_space(#[trigger] word[i]),
        before.len() > 0 ==> is_white_space(before.last()),
    ensures
        word_start(before + word, before.len() + n) == before.len(),
    decreases n,
{
    let t = before + word;
    if n == 0 {
        if before.len() > 0 {
            assert(t[before.len() - 1] == before.last());
        }
    } else {
        assert(t[before.len() + n - 1] == word[n - 1]);
        lemma_word_start(before, word, n - 1);
    }
}

/// A unit that was asked for is reported without claims too, and where its file is
/// not tracked; one that was not is passed over.
pub proof fn law_a_unit_without_claims_is_reported_by_name(unit: Seq<char>)
    ensures
        unit_report(unit, Some(Seq::empty()), true) == unit + ": 0 claim(s)\n"@,
        unit_report(unit, None, true) == unit + ": split config not tracked in git\n"@,
        unit_report(unit, Some(Seq::empty()), false) == Seq::<char>::empty(),
        unit_report(unit, None, false) == Seq::<char>::empty(),
{
}

/// A report names a unit's claims one to a line, in their order, the original
/// name before the claimed one, under a line with their number.
pub proof fn law_a_report_names_every_claim(unit: Seq<char>, pairs: Seq<(Seq<char>, Seq<char>)>, named: bool)
    requires
        pairs.len() > 0,
    ensures
        unit_report(unit, Some(pairs), named) == as_lines(
            seq![unit + ": "@ + digits(pairs.len(), 10) + " claim(s) (original -> claimed):"@] + Seq::new(
                pairs.len(),
                |i: int| "  "@ + pairs[i].0 + "  ->  "@ + pairs[i].1,
            ),
        ),
{
    let head = unit + ": "@ + digits(pairs.len(), 10) + " claim(s) (original -> claimed):"@;
    reveal_strlit(" claim(s) (original -> claimed):");
    reveal_strlit(" claim(s) (original -> claimed):\n");
    reveal_strlit("\n");
    let before = unit + ": "@ + digits(pairs.len(), 10);
    assert(before + " claim(s) (original -> claimed):\n"@ =~= head + "\n"@);
    lemma_pair_lines(head, pairs, pairs.len());
}

proof fn lemma_pair_lines(head: Seq<char>, pairs: Seq<(Seq<char>, Seq<char>)>, n: nat)
    requires
        n <= pairs.len(),
    ensures
        head + "\n"@ + pair_lines(pairs, n) == as_lines(
            seq![head] + Seq::new(n, |i: int| "  "@ + pairs[i].0 + "  ->  "@ + pairs[i].1),
        ),
    decreases n,
{
    let all = seq![head] + Seq::new(n, |i: int| "  "@ + pairs[i].0 + "  ->  "@ + pairs[i].1);
    if n == 0 {
        let none = Seq::<Seq<char>>::empty();
        lemma_as_lines_more(none, head);
        assert(all =~= none.push(head));
        assert(as_lines(none) + head + "\n"@ =~= head + "\n"@ + pair_lines(pairs, 0));
    } else {
        let init = seq![head] + Seq::new((n - 1) as nat, |i: int| "  "@ + pairs[i].0 + "  ->  "@ + pairs[i].1);
        let line = "  "@ + pairs[n - 1].0 + "  ->  "@ + pairs[n - 1].1;
        lemma_pair_lines(head, pairs, (n - 1) as nat);
        lemma_as_lines_more(init, line);
        assert(all =~= init.push(line));
        assert(head + "\n"@ + pair_lines(pairs, n) =~= head + "\n"@ + pair_lines(pairs, (n - 1) as nat) + line
            + "\n"@);
    }
}

/// The total is what the units' claims add up to: of two lists of units, it is
/// that of the one and that of the other together.
pub proof fn law_totals_of_claims_add_up(a: Seq<usize>, b: Seq<usize>)
    ensures
        total_of(a + b, (a + b).len()) == total_of(a, a.len()) + total_of(b, b.len()),
        a.len() == 1 ==> total_of(a, 1) == a[0],
        a.len() == 0 ==> total_of(a, 0) == 0,
{
    reveal_with_fuel(total_of, 2);
    lemma_total_of_first(a, b, a.len());
    lemma_total_of_both(a, b, b.len());
}

proof fn lemma_total_of_first(a: Seq<usize>, b: Seq<usize>, n: nat)
    requires
        n <= a.len(),
    ensures
        total_of(a + b, n) == total_of(a, n),
    decreases n,
{
    if n > 0 {
        lemma_total_of_first(a, b, (n - 1) as nat);
    }
}

proof fn lemma_total_of_both(a: Seq<usize>, b: Seq<usize>, n: nat)
    requires
        n <= b.len(),
    ensures
        total_of(a + b, a.len() + n) == total_of(a, a.len()) + total_of(b, n),
    decreases n,
{
    if n == 0 {
        lemma_total_of_first(a, b, a.len());
    } else {
        lemma_total_of_both(a, b, (n - 1) as nat);
        assert((a + b)[a.len() + n - 1] == b[n - 1]);
    }
}

} // verus!
