//! Claiming symbols: renaming them where a unit's split and delink files name
//! them.
use vstd::prelude::*;

use crate::order::{lemma_selects_more, selects};
use crate::text::{
    contains_text, find_from, first_of, join_texts, joined, law_replacing_goes_left_to_right, lemma_first_of,
    lemma_first_of_is, lemma_replaced_absent, replace_text, replaced, same_text, slice_text, stands_at, text_contains,
    texts, to_chars,
};

verus! {

/// Where a unit's split file stands.
pub open spec fn split_file(config_id: Seq<char>, unit: Seq<char>) -> Seq<char> {
    "config/"@ + config_id + "/splits/"@ + unit + ".json"@
}

/// Where a unit's split file stands.
pub fn split_path(config_id: &str, unit: &str) -> (r: String)
    ensures
        r@ == split_file(config_id@, unit@),
{
    let mut s = String::from_str("config/");
    s.append(config_id);
    s.append("/splits/");
    s.append(unit);
    s.append(".json");
    s
}

/// Where a unit's delink file stands.
pub open spec fn delink_file(config_id: Seq<char>, unit: Seq<char>) -> Seq<char> {
    "config/"@ + config_id + "/delink/"@ + unit + ".delink.json"@
}

/// Where a unit's delink file stands.
pub fn delink_path(config_id: &str, unit: &str) -> (r: String)
    ensures
        r@ == delink_file(config_id@, unit@),
{
    let mut s = String::from_str("config/");
    s.append(config_id);
    s.append("/delink/");
    s.append(unit);
    s.append(".delink.json");
    s
}

/// Why renames cannot be taken up.
#[derive(Debug)]
pub enum RenameError {
    /// None is given.
    Empty,
    /// This one has no `=`.
    Malformed(String),
}

/// What a list of pairs holds.
pub open spec fn pair_texts(pairs: Seq<(String, String)>) -> Seq<(Seq<char>, Seq<char>)> {
    Seq::new(pairs.len(), |i: int| (pairs[i].0@, pairs[i].1@))
}

/// A rename, parted at its first `=`.
pub open spec fn rename_of(r: Seq<char>) -> Option<(Seq<char>, Seq<char>)> {
    let at = first_of(r, '=');
    if at < r.len() {
        Some((r.take(at), r.skip(at + 1)))
    } else {
        None
    }
}

/// The first `n` renames, or the first that has no `=`.
pub open spec fn renames_of(renames: Seq<Seq<char>>, n: nat) -> Result<Seq<(Seq<char>, Seq<char>)>, Seq<char>>
    decreases n,
{
    if n == 0 {
        Ok(Seq::empty())
    } else {
        match renames_of(renames, (n - 1) as nat) {
            Err(e) => Err(e),
            Ok(pairs) => match rename_of(renames[n - 1]) {
                Some(pair) => Ok(pairs.push(pair)),
                None => Err(renames[n - 1]),
            },
        }
    }
}

proof fn lemma_first_malformed(renames: Seq<Seq<char>>, m: nat, n: nat)
    requires
        m <= n,
        renames_of(renames, m) is Err,
    ensures
        renames_of(renames, n) == renames_of(renames, m),
    decreases n,
{
    if m < n {
        lemma_first_malformed(renames, m, (n - 1) as nat);
    }
}

/// Parts renames of the form `old=new`, of which there must be one at least.
pub fn parse_renames(renames: &Vec<String>) -> (r: Result<Vec<(String, String)>, RenameError>)
    ensures
        r matches Err(RenameError::Empty) <==> renames@.len() == 0,
        renames@.len() > 0 ==> match renames_of(texts(renames@), renames@.len()) {
            Ok(pairs) => r is Ok && pair_texts(r->Ok_0@) == pairs,
            Err(bad) => match r {
                Err(RenameError::Malformed(s)) => s@ == bad,
                _ => false,
            },
        },
{
    let n = renames.len();
    if n == 0 {
        return Err(RenameError::Empty);
    }
    let ghost all = texts(renames@);
    let mut pairs: Vec<(String, String)> = Vec::new();
    let mut i: usize = 0;
    assert(pair_texts(pairs@) =~= Seq::empty());
    while i < n
        invariant
            i <= n,
            n == renames@.len(),
            all == texts(renames@),
            renames_of(all, i as nat) == Ok::<Seq<(Seq<char>, Seq<char>)>, Seq<char>>(pair_texts(pairs@)),
        decreases n - i,
    {
        assert(all[i as int] == renames@[i as int]@);
        let v = to_chars(renames[i].as_str());
        let at = find_from(&v, 0, '=');
        assert(v@.skip(0) =~= v@);
        if at == v.len() {
            proof {
                lemma_first_malformed(all, (i + 1) as nat, n as nat);
            }
            return Err(RenameError::Malformed(renames[i].as_str().to_owned()));
        }
        let from = slice_text(&v, 0, at);
        let to = slice_text(&v, at + 1, v.len());
        assert(from@ =~= v@.take(at as int));
        assert(to@ =~= v@.skip(at + 1));
        let ghost before = pair_texts(pairs@);
        let ghost pair = (from@, to@);
        pairs.push((from, to));
        assert(pair_texts(pairs@) =~= before.push(pair));
        i = i + 1;
    }
    Ok(pairs)
}

/// A name in quotes.
pub open spec fn quoted(name: Seq<char>) -> Seq<char> {
    "\""@ + name + "\""@
}

fn quote(name: &str) -> (r: String)
    ensures
        r@ == quoted(name@),
{
    let mut s = String::from_str("\"");
    s.append(name);
    s.append("\"");
    s
}

/// The text with the first `n` renames done, one after the other, wherever an
/// old name stands in quotes.
pub open spec fn renamed(text: Seq<char>, pairs: Seq<(Seq<char>, Seq<char>)>, n: nat) -> Seq<char>
    decreases n,
{
    if n == 0 {
        text
    } else {
        replaced(renamed(text, pairs, (n - 1) as nat), quoted(pairs[n - 1].0), quoted(pairs[n - 1].1))
    }
}

/// Whether rename `k` finds its old name in the text that the renames before it
/// left.
pub open spec fn hits(text: Seq<char>, pairs: Seq<(Seq<char>, Seq<char>)>, k: int) -> bool {
    contains_text(renamed(text, pairs, k as nat), quoted(pairs[k].0))
}

/// What a list of names and whether they were found holds.
pub open spec fn found_facts(found: Seq<(String, bool)>) -> Seq<(Seq<char>, bool)> {
    Seq::new(found.len(), |i: int| (found[i].0@, found[i].1))
}

/// The first place from `i` on where a name stands, or the end.
pub open spec fn place_of(found: Seq<(Seq<char>, bool)>, name: Seq<char>, i: int) -> int
    decreases found.len() - i,
{
    if i < 0 || i >= found.len() {
        found.len() as int
    } else if found[i].0 == name {
        i
    } else {
        place_of(found, name, i + 1)
    }
}

/// The list with a name's first entry marked as found.
pub open spec fn marked(found: Seq<(Seq<char>, bool)>, name: Seq<char>) -> Seq<(Seq<char>, bool)> {
    let i = place_of(found, name, 0);
    if 0 <= i < found.len() {
        found.update(i, (name, true))
    } else {
        found
    }
}

/// The list with what the first `n` renames found marked.
pub open spec fn found_after(
    text: Seq<char>,
    pairs: Seq<(Seq<char>, Seq<char>)>,
    found: Seq<(Seq<char>, bool)>,
    n: nat,
) -> Seq<(Seq<char>, bool)>
    decreases n,
{
    if n == 0 {
        found
    } else {
        let before = found_after(text, pairs, found, (n - 1) as nat);
        if hits(text, pairs, n - 1) {
            marked(before, pairs[n - 1].0)
        } else {
            before
        }
    }
}

fn mark(found: &mut Vec<(String, bool)>, name: &str)
    ensures
        found_facts(final(found)@) == marked(found_facts(old(found)@), name@),
{
    let ghost facts = found_facts(found@);
    let n = found.len();
    let mut i: usize = 0;
    while i < n
        invariant
            i <= n,
            n == found@.len(),
            facts == found_facts(found@),
            facts == found_facts(old(found)@),
            facts.len() == n,
            place_of(facts, name@, 0) == place_of(facts, name@, i as int),
        decreases n - i,
    {
        assert(facts[i as int].0 == found@[i as int].0@);
        if same_text(found[i].0.as_str(), name) {
            found.set(i, (name.to_owned(), true));
            assert(found_facts(found@) =~= facts.update(i as int, (name@, true)));
            return ;
        }
        i = i + 1;
    }
}

/// Does the renames in a file's text, and marks those that were found. Gives the
/// new text where any was. Raw text substitution, so unrelated formatting and
/// ordering in a multi-thousand-line file is untouched.
pub fn apply_renames(text: &str, pairs: &Vec<(String, String)>, found: &mut Vec<(String, bool)>) -> (r: Option<String>)
    ensures
        r is Some <==> exists|k: int| 0 <= k < pairs@.len() && #[trigger] hits(text@, pair_texts(pairs@), k),
        r is Some ==> r->0@ == renamed(text@, pair_texts(pairs@), pairs@.len()),
        found_facts(final(found)@) == found_after(
            text@,
            pair_texts(pairs@),
            found_facts(old(found)@),
            pairs@.len(),
        ),
{
    let ghost all = pair_texts(pairs@);
    let ghost start = found_facts(found@);
    let mut now = text.to_owned();
    let mut changed = false;
    let n = pairs.len();
    let mut i: usize = 0;
    while i < n
        invariant
            i <= n,
            n == pairs@.len(),
            all == pair_texts(pairs@),
            now@ == renamed(text@, all, i as nat),
            changed <==> exists|k: int| 0 <= k < i && #[trigger] hits(text@, all, k),
            found_facts(found@) == found_after(text@, all, start, i as nat),
        decreases n - i,
    {
        let pair = &pairs[i];
        assert(all[i as int] == (pair.0@, pair.1@));
        let needle = quote(pair.0.as_str());
        let ghost was = now@;
        proof {
            reveal_strlit("\"");
        }
        let hit = text_contains(now.as_str(), needle.as_str());
        assert(hit == hits(text@, all, i as int));
        if hit {
            let with = quote(pair.1.as_str());
            now = replace_text(now.as_str(), needle.as_str(), with.as_str());
            changed = true;
            mark(found, pair.0.as_str());
        } else {
            proof {
                lemma_replaced_absent(was, needle@, quoted(pair.1@));
            }
        }
        proof {
            assert(hit ==> hits(text@, all, i as int));
        }
        i = i + 1;
    }
    if changed {
        Some(now)
    } else {
        None
    }
}

/// The names that were not found.
pub open spec fn missing_of(found: Seq<(Seq<char>, bool)>, n: nat) -> Seq<Seq<char>>
    decreases n,
{
    if n == 0 || n > found.len() {
        Seq::empty()
    } else if found[n - 1].1 {
        missing_of(found, (n - 1) as nat)
    } else {
        missing_of(found, (n - 1) as nat).push(found[n - 1].0)
    }
}

/// What is said of symbols that were not found.
pub open spec fn missing_text(missing: Seq<Seq<char>>) -> Seq<char> {
    "symbol(s) not found in split or delink: "@ + joined(missing, ", "@)
}

/// Complains of the symbols that no file held; of nothing where each was found.
pub fn missing_symbols(found: &Vec<(String, bool)>) -> (r: Option<String>)
    ensures
        ({
            let missing = missing_of(found_facts(found@), found@.len());
            &&& r is None <==> missing.len() == 0
            &&& r is Some ==> r->0@ == missing_text(missing)
        }),
{
    let ghost facts = found_facts(found@);
    let n = found.len();
    let mut missing: Vec<String> = Vec::new();
    let mut i: usize = 0;
    assert(texts(missing@) =~= Seq::empty());
    while i < n
        invariant
            i <= n,
            n == found@.len(),
            facts == found_facts(found@),
            facts.len() == n,
            texts(missing@) == missing_of(facts, i as nat),
        decreases n - i,
    {
        assert(facts[i as int] == (found@[i as int].0@, found@[i as int].1));
        if !found[i].1 {
            let ghost before = texts(missing@);
            missing.push(found[i].0.as_str().to_owned());
            assert(texts(missing@) =~= before.push(facts[i as int].0));
        }
        i = i + 1;
    }
    assert(texts(missing@).len() == missing@.len());
    if missing.len() == 0 {
        return None;
    }
    let mut s = String::from_str("symbol(s) not found in split or delink: ");
    s.append(join_texts(&missing, ", ").as_str());
    Some(s)
}

/// Text that holds none of the old names in quotes stays as it is.
pub proof fn law_absent_symbols_leave_the_text_alone(text: Seq<char>, pairs: Seq<(Seq<char>, Seq<char>)>, n: nat)
    requires
        n <= pairs.len(),
        forall|k: int| 0 <= k < n ==> !contains_text(text, quoted((#[trigger] pairs[k]).0)),
    ensures
        renamed(text, pairs, n) == text,
        forall|k: int| 0 <= k < n ==> !hits(text, pairs, k),
    decreases n,
{
    if n > 0 {
        law_absent_symbols_leave_the_text_alone(text, pairs, (n - 1) as nat);
        assert(!contains_text(text, quoted(pairs[n - 1].0)));
        reveal_strlit("\"");
        lemma_replaced_absent(text, quoted(pairs[n - 1].0), quoted(pairs[n - 1].1));
    }
}

/// A rename is parted at its first `=`; one without is none.
pub proof fn law_a_rename_is_parted_at_its_first_equals_sign(old: Seq<char>, new: Seq<char>)
    requires
        !old.contains('='),
    ensures
        rename_of(old + "="@ + new) == Some((old, new)),
        rename_of(old) is None,
{
    reveal_strlit("=");
    let r = old + "="@ + new;
    assert forall|j: int| 0 <= j < old.len() implies r[j] != '=' by {
        assert(old.contains(old[j]));
    }
    lemma_first_of_is(r, '=', old.len() as int);
    assert(r.take(old.len() as int) =~= old);
    assert(r.skip(old.len() as int + 1) =~= new);
    lemma_first_of(old, '=');
}

/// Renames are taken up in their order, each as it is given; the first that is
/// none is told.
pub proof fn law_renames_are_taken_up_in_order(renames: Seq<Seq<char>>, n: nat)
    requires
        n <= renames.len(),
    ensures
        match renames_of(renames, n) {
            Ok(pairs) => pairs.len() == n && forall|i: int|
                0 <= i < n ==> #[trigger] renames[i] == pairs[i].0 + "="@ + pairs[i].1 && !pairs[i].0.contains('='),
            Err(bad) => exists|i: int|
                0 <= i < n && #[trigger] renames[i] == bad && !renames[i].contains('=') && forall|j: int|
                    0 <= j < i ==> (#[trigger] renames[j]).contains('='),
        },
    decreases n,
{
    if n > 0 {
        law_renames_are_taken_up_in_order(renames, (n - 1) as nat);
        let r = renames[n - 1];
        lemma_first_of(r, '=');
        reveal_strlit("=");
        match renames_of(renames, (n - 1) as nat) {
            Ok(pairs) => {
                assert forall|j: int| 0 <= j < n - 1 implies (#[trigger] renames[j]).contains('=') by {
                    let s = pairs[j].0 + "="@ + pairs[j].1;
                    assert(s[pairs[j].0.len() as int] == '=');
                    assert(renames[j] == s);
                }
                let at = first_of(r, '=');
                if at < r.len() {
                    assert(r =~= r.take(at) + "="@ + r.skip(at + 1));
                    assert(!r.take(at).contains('=')) by {
                        if r.take(at).contains('=') {
                            let k = choose|k: int| 0 <= k < at && r.take(at)[k] == '=';
                            assert(r[k] == '=');
                        }
                    }
                }
            },
            Err(bad) => {
                let i = choose|i: int|
                    0 <= i < n - 1 && #[trigger] renames[i] == bad && !renames[i].contains('=') && forall|j: int|
                        0 <= j < i ==> (#[trigger] renames[j]).contains('=');
                assert(renames[i] == bad);
            },
        }
    }
}

/// Renames are done one after the other, each on what those before it left.
pub proof fn law_renames_are_done_one_after_the_other(
    text: Seq<char>,
    a: Seq<(Seq<char>, Seq<char>)>,
    b: Seq<(Seq<char>, Seq<char>)>,
)
    ensures
        renamed(text, a + b, (a + b).len()) == renamed(renamed(text, a, a.len()), b, b.len()),
        renamed(text, a, 0) == text,
{
    lemma_renamed_first(text, a, b, a.len());
    lemma_renamed_both(text, a, b, b.len());
}

proof fn lemma_renamed_first(
    text: Seq<char>,
    a: Seq<(Seq<char>, Seq<char>)>,
    b: Seq<(Seq<char>, Seq<char>)>,
    n: nat,
)
    requires
        n <= a.len(),
    ensures
        renamed(text, a + b, n) == renamed(text, a, n),
    decreases n,
{
    if n > 0 {
        lemma_renamed_first(text, a, b, (n - 1) as nat);
        assert((a + b)[n - 1] == a[n - 1]);
    }
}

proof fn lemma_renamed_both(
    text: Seq<char>,
    a: Seq<(Seq<char>, Seq<char>)>,
    b: Seq<(Seq<char>, Seq<char>)>,
    n: nat,
)
    requires
        n <= b.len(),
    ensures
        renamed(text, a + b, a.len() + n) == renamed(renamed(text, a, a.len()), b, n),
    decreases n,
{
    if n == 0 {
        lemma_renamed_first(text, a, b, a.len());
    } else {
        lemma_renamed_both(text, a, b, (n - 1) as nat);
        assert((a + b)[a.len() + n - 1] == b[n - 1]);
    }
}

/// A name that stands in double quotes is renamed there, the first time and in
/// what follows; what is before it stays as it is.
pub proof fn law_a_quoted_name_is_renamed(
    before: Seq<char>,
    old: Seq<char>,
    behind: Seq<char>,
    new: Seq<char>,
)
    requires
        forall|j: int|
            0 <= j < before.len() ==> !#[trigger] stands_at(
                before + seq!['"'] + old + seq!['"'] + behind,
                j,
                seq!['"'] + old + seq!['"'],
            ),
    ensures
        renamed(before + seq!['"'] + old + seq!['"'] + behind, seq![(old, new)], 1) == before + seq!['"'] + new
            + seq!['"'] + renamed(behind, seq![(old, new)], 1),
{
    reveal_with_fuel(renamed, 2);
    reveal_strlit("\"");
    let from = seq!['"'] + old + seq!['"'];
    let to = seq!['"'] + new + seq!['"'];
    let text = before + seq!['"'] + old + seq!['"'] + behind;
    let n = before.len() as int;
    assert(quoted(old) =~= from);
    assert(quoted(new) =~= to);
    assert(text.subrange(n, n + from.len()) =~= from);
    law_replacing_goes_left_to_right(text, from, to, n);
    assert(text.take(n) =~= before);
    assert(text.skip(n + from.len()) =~= behind);
    let rest = replaced(behind, from, to);
    assert(before + to + rest =~= before + seq!['"'] + new + seq!['"'] + rest);
}

/// Whether a name's first entry in a list is at place `k`.
pub open spec fn is_first_entry(found: Seq<(Seq<char>, bool)>, k: int) -> bool {
    forall|j: int| 0 <= j < k ==> (#[trigger] found[j]).0 != found[k].0
}

/// Marking what was found changes no name, takes no mark away, and marks the
/// first entry of exactly the names that a rename found.
pub proof fn law_every_name_that_was_found_is_marked(
    text: Seq<char>,
    pairs: Seq<(Seq<char>, Seq<char>)>,
    found: Seq<(Seq<char>, bool)>,
    n: nat,
    k: int,
)
    requires
        n <= pairs.len(),
        0 <= k < found.len(),
    ensures
        found_after(text, pairs, found, n).len() == found.len(),
        found_after(text, pairs, found, n)[k].0 == found[k].0,
        found_after(text, pairs, found, n)[k].1 <==> found[k].1 || (is_first_entry(found, k) && exists|p: int|
            0 <= p < n && #[trigger] hits(text, pairs, p) && pairs[p].0 == found[k].0),
    decreases n,
{
    if n > 0 {
        law_every_name_that_was_found_is_marked(text, pairs, found, (n - 1) as nat, k);
        let before = found_after(text, pairs, found, (n - 1) as nat);
        let name = pairs[n - 1].0;
        assert forall|j: int| 0 <= j < found.len() implies (#[trigger] before[j]).0 == found[j].0 by {
            law_every_name_that_was_found_is_marked(text, pairs, found, (n - 1) as nat, j);
        }
        if hits(text, pairs, n - 1) {
            lemma_place_of(before, name, 0);
            let at = place_of(before, name, 0);
            if at == k {
                assert(is_first_entry(found, k)) by {
                    assert forall|j: int| 0 <= j < k implies (#[trigger] found[j]).0 != found[k].0 by {
                        assert(before[j].0 == found[j].0);
                    }
                }
            } else if found[k].0 == name && is_first_entry(found, k) {
                assert(before[k].0 == name);
                if at < k {
                    assert(before[at].0 == name);
                    assert(found[at].0 != found[k].0);
                }
            }
        }
    }
}

proof fn lemma_place_of(found: Seq<(Seq<char>, bool)>, name: Seq<char>, i: int)
    requires
        0 <= i <= found.len(),
    ensures
        i <= place_of(found, name, i) <= found.len(),
        place_of(found, name, i) < found.len() ==> found[place_of(found, name, i)].0 == name,
        forall|j: int| i <= j < place_of(found, name, i) ==> (#[trigger] found[j]).0 != name,
    decreases found.len() - i,
{
    if i < found.len() && found[i].0 != name {
        lemma_place_of(found, name, i + 1);
    }
}

/// The names that are missing are exactly those that are not marked, in their
/// order. Their places are given.
pub proof fn law_unmarked_names_are_missing(found: Seq<(Seq<char>, bool)>, n: nat) -> (order: Seq<int>)
    requires
        n <= found.len(),
    ensures
        selects(order, n as int, |i: int| !found[i].1),
        missing_of(found, n).len() == order.len(),
        forall|k: int| 0 <= k < order.len() ==> #[trigger] missing_of(found, n)[k] == found[order[k]].0,
    decreases n,
{
    let wanted = |i: int| !found[i].1;
    if n == 0 {
        Seq::empty()
    } else {
        let before = law_unmarked_names_are_missing(found, (n - 1) as nat);
        lemma_selects_more(before, n - 1, wanted);
        if wanted(n - 1) {
            before.push(n - 1)
        } else {
            before
        }
    }
}

} // verus!
