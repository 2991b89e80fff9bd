//! The development loop: units and symbols as they are named on the command
//! line, and compile commands.
use vstd::prelude::*;

use crate::codegen::{forward, to_forward_path, UnitError};
use crate::maps::{keys_of, lemma_lookup, lib_at, lib_count, lib_entries, lib_get};
use crate::model::Objects;
use crate::order::{lemma_selects_more, selects};
use crate::text::{
    after_last, begins_with, ends_with, find_from, first_of, joined, last_of, lemma_first_of, lemma_first_of_is,
    lemma_joined_first, lemma_last_of, lines, lowercase, opt_text, same_text, slice_text, text_begins_with,
    text_ends_with, text_lines, texts, to_chars, to_lower, trim, trim_text,
};

verus! {

/// Where the object compiled from a unit goes.
pub open spec fn obj_path(config_id: Seq<char>, unit: Seq<char>) -> Seq<char> {
    "build/"@ + config_id + "/obj/"@ + unit + "/src/"@ + unit + ".obj"@
}

/// The build target of a unit: the object compiled from it.
pub fn obj_target(config_id: &str, unit: &str) -> (r: String)
    ensures
        r@ == obj_path(config_id@, unit@),
{
    let mut s = String::from_str("build/");
    s.append(config_id);
    s.append("/obj/");
    s.append(unit);
    s.append("/src/");
    s.append(unit);
    s.append(".obj");
    s
}

/// Whether a character parts arguments: a space, a tab or the end of a line.
pub open spec fn is_blank(c: char) -> bool {
    c == ' ' || c == '\t' || c == '\r' || c == '\n'
}

/// Whether a character is a quote, single or double.
pub open spec fn is_quote(c: char) -> bool {
    c == '"' || c == '\''
}

/// How many characters of `s` stand before its first blank.
pub open spec fn word_len(s: Seq<char>) -> nat
    decreases s.len(),
{
    if s.len() == 0 || is_blank(s[0]) {
        0
    } else {
        1 + word_len(s.skip(1))
    }
}

/// How long the argument is that `s` begins with. One that begins with a quote
/// reaches to the next such quote, or to the end where there is none; any other
/// reaches to the next blank, and a quote within it is a character like others.
pub open spec fn arg_len(s: Seq<char>) -> nat {
    if s.len() > 0 && is_quote(s[0]) {
        let end = first_of(s.skip(1), s[0]);
        if 0 <= end < s.len() - 1 {
            (end + 2) as nat
        } else {
            s.len()
        }
    } else {
        word_len(s)
    }
}

proof fn lemma_word_len(s: Seq<char>)
    ensures
        word_len(s) <= s.len(),
        s.len() > 0 && !is_blank(s[0]) ==> word_len(s) > 0,
        word_len(s) < s.len() ==> is_blank(s[word_len(s) as int]),
        forall|i: int| 0 <= i < word_len(s) ==> !is_blank(#[trigger] s[i]),
    decreases s.len(),
{
    if s.len() > 0 && !is_blank(s[0]) {
        let t = s.skip(1);
        lemma_word_len(t);
        assert forall|i: int| 0 <= i < word_len(s) implies !is_blank(#[trigger] s[i]) by {
            if i > 0 {
                assert(s[i] == t[i - 1]);
            }
        }
        if word_len(s) < s.len() {
            assert(s[word_len(s) as int] == t[word_len(t) as int]);
        }
    }
}

proof fn lemma_arg_len(s: Seq<char>)
    ensures
        arg_len(s) <= s.len(),
        s.len() > 0 && !is_blank(s[0]) ==> arg_len(s) > 0,
{
    lemma_word_len(s);
}

/// A command line's arguments, with their quotes.
pub open spec fn args_of(s: Seq<char>) -> Seq<Seq<char>>
    decreases s.len(),
    via args_of_decreases
{
    if s.len() == 0 {
        Seq::empty()
    } else if is_blank(s[0]) {
        args_of(s.skip(1))
    } else {
        seq![s.take(arg_len(s) as int)] + args_of(s.skip(arg_len(s) as int))
    }
}

#[via_fn]
proof fn args_of_decreases(s: Seq<char>) {
    lemma_arg_len(s);
}

fn blank(c: char) -> (r: bool)
    ensures
        r == is_blank(c),
{
    c == ' ' || c == '\t' || c == '\r' || c == '\n'
}

/// Replicates Python's `shlex.split(line, posix=False)`: splits on unquoted
/// whitespace and keeps quote characters attached to their token. A token that
/// begins with a quote, single or double, ends at the next such quote; within a
/// word a quote is a character like others. A quote that nothing closes, which
/// Python refuses, takes the rest of the line.
pub fn shlex_split_non_posix(line: &str) -> (tokens: Vec<String>)
    ensures
        texts(tokens@) == args_of(line@),
{
    let v = to_chars(line);
    let n = v.len();
    let mut tokens: Vec<String> = Vec::new();
    let mut i: usize = 0;
    assert(texts(tokens@) =~= Seq::empty());
    assert(v@.skip(0) =~= v@);
    assert(texts(tokens@) + args_of(v@) =~= args_of(v@));
    while i < n
        invariant
            i <= n,
            n == v@.len(),
            v@ == line@,
            texts(tokens@) + args_of(v@.skip(i as int)) == args_of(v@),
        decreases n - i,
    {
        let c = v[i];
        let ghost here = v@.skip(i as int);
        assert(here[0] == c);
        assert(here.skip(1) =~= v@.skip(i + 1));
        if blank(c) {
            i = i + 1;
        } else {
            let mut end: usize = i + 1;
            if c == '"' || c == '\'' {
                end = find_from(&v, i + 1, c);
                if end < n {
                    end = end + 1;
                }
            } else {
                assert(word_len(here) == 1 + word_len(v@.skip(i + 1)));
                while end < n && !blank(v[end])
                    invariant
                        i < end <= n,
                        n == v@.len(),
                        word_len(here) == end - i + word_len(v@.skip(end as int)),
                    decreases n - end,
                {
                    assert(v@.skip(end as int).skip(1) =~= v@.skip(end + 1));
                    end = end + 1;
                }
                assert(word_len(v@.skip(end as int)) == 0);
            }
            assert(end == i + arg_len(here));
            let ghost before = texts(tokens@);
            let token = slice_text(&v, i, end);
            let ghost t = token@;
            tokens.push(token);
            proof {
                assert(t =~= here.take(arg_len(here) as int));
                assert(texts(tokens@) =~= before.push(t));
                assert(here.skip(arg_len(here) as int) =~= v@.skip(end as int));
                assert(before + (seq![t] + args_of(v@.skip(end as int))) =~= texts(tokens@) + args_of(
                    v@.skip(end as int),
                ));
            }
            i = end;
        }
    }
    assert(v@.skip(i as int) =~= Seq::<char>::empty());
    assert(texts(tokens@) + Seq::<Seq<char>>::empty() =~= texts(tokens@));
    tokens
}

/// `s` without the pair of quotes around it, where there is one.
pub open spec fn unquoted(s: Seq<char>) -> Seq<char> {
    if s.len() >= 2 && s[0] == '"' && s.last() == '"' {
        s.subrange(1, s.len() - 1)
    } else {
        s
    }
}

/// Takes one pair of quotes away from around an argument.
pub fn strip_arg_quotes(flag: &str) -> (r: String)
    ensures
        r@ == unquoted(flag@),
{
    let v = to_chars(flag);
    let n = v.len();
    if n >= 2 && v[0] == '"' && v[n - 1] == '"' {
        slice_text(&v, 1, n - 1)
    } else {
        flag.to_owned()
    }
}

/// The output path that the argument at `i` gives: behind `/Fo`, or as the
/// argument after `-o`.
pub open spec fn output_at(parts: Seq<Seq<char>>, i: int) -> Option<Seq<char>> {
    if begins_with(parts[i], "/Fo"@) && parts[i].len() > 3 {
        Some(parts[i].skip(3))
    } else if parts[i] == "-o"@ && i + 1 < parts.len() {
        Some(parts[i + 1])
    } else {
        None
    }
}

/// The first output path that the arguments from `i` on give.
pub open spec fn output_from(parts: Seq<Seq<char>>, i: int) -> Option<Seq<char>>
    decreases parts.len() - i,
{
    if i < 0 || i >= parts.len() {
        None
    } else {
        match output_at(parts, i) {
            Some(path) => Some(path),
            None => output_from(parts, i + 1),
        }
    }
}

/// Extracts a compile command's output object path from its (already
/// quote-stripped) tokens: MSVC's `/Fo<path>` or the portable `-o <path>`.
/// Needed because the command lines are run directly instead of via ninja, so
/// nothing creates the output's parent directory the way ninja would, and the
/// compiler does not create it either.
pub fn compile_output_path(parts: &Vec<String>) -> (r: Option<String>)
    ensures
        opt_text(r) == output_from(texts(parts@), 0),
{
    let n = parts.len();
    let mut i: usize = 0;
    let ghost ts = texts(parts@);
    proof {
        reveal_strlit("/Fo");
    }
    while i < n
        invariant
            i <= n,
            n == parts@.len(),
            ts == texts(parts@),
            "/Fo"@.len() == 3,
            output_from(ts, 0) == output_from(ts, i as int),
        decreases n - i,
    {
        let p = parts[i].as_str();
        assert(ts[i as int] == p@);
        if text_begins_with(p, "/Fo") {
            let v = to_chars(p);
            if v.len() > 3 {
                let r = slice_text(&v, 3, v.len());
                assert(r@ =~= p@.skip(3));
                return Some(r);
            }
        }
        if same_text(p, "-o") && i + 1 < n {
            assert(!begins_with(p@, "/Fo"@)) by {
                reveal_strlit("-o");
            }
            assert(ts[i + 1] == parts@[i + 1]@);
            return Some(parts[i + 1].as_str().to_owned());
        }
        i = i + 1;
    }
    None
}

/// Whether `s` is a decimal number.
pub open spec fn is_number(s: Seq<char>) -> bool {
    s.len() > 0 && forall|i: int| 0 <= i < s.len() ==> '0' <= #[trigger] s[i] <= '9'
}

/// Whether a name has C decoration: `_name@N` or `@name@N`.
pub open spec fn is_decorated(s: Seq<char>) -> bool {
    let rest = s.skip(1);
    let at = first_of(rest, '@');
    &&& s.len() > 0
    &&& s[0] == '_' || s[0] == '@'
    &&& 0 < at < rest.len()
    &&& is_number(rest.skip(at + 1))
}

/// The name under which a symbol is looked up: what C decoration decorates, and
/// any other name as it is.
pub open spec fn key_of(name: Seq<char>) -> Seq<char> {
    if is_decorated(name) {
        name.skip(1).take(first_of(name.skip(1), '@'))
    } else {
        name
    }
}

/// Loose symbol key for matching a requested symbol against the engine's
/// symbol list.
///
/// C++ MSVC-mangled names start with `?` and use `@` as a *structural* separator
/// (`?method@Class@@signature`), so two different classes' identically-named
/// methods share the `?method` prefix. Truncating at the first `@` (correct only
/// for C decoration) would collapse them. Such names are kept whole so each
/// resolves to exactly its own function.
///
/// Only C-style stdcall/fastcall names (`_name@N`, `@name@N`) get the leading
/// `_`/`@` and trailing `@N` byte-count decoration stripped. Any other name is its
/// own key.
pub fn symbol_key(name: &str) -> (r: String)
    ensures
        r@ == key_of(name@),
{
    let v = to_chars(name);
    let n = v.len();
    if n == 0 || !(v[0] == '_' || v[0] == '@') {
        return name.to_owned();
    }
    let at = find_from(&v, 1, '@');
    let ghost rest = name@.skip(1);
    assert(at == 1 + first_of(rest, '@'));
    if at == 1 || at == n {
        return name.to_owned();
    }
    let mut i: usize = at + 1;
    let ghost count = rest.skip(at as int);
    assert(count =~= v@.skip(at + 1));
    while i < n
        invariant
            at < i <= n,
            n == v@.len(),
            count == v@.skip(at + 1),
            count == rest.skip(at as int),
            rest == name@.skip(1),
            at == 1 + first_of(rest, '@'),
            forall|j: int| 0 <= j < i - at - 1 ==> '0' <= #[trigger] count[j] <= '9',
        decreases n - i,
    {
        assert(count[i - at - 1] == v@[i as int]);
        if !('0' <= v[i] && v[i] <= '9') {
            return name.to_owned();
        }
        i = i + 1;
    }
    if at + 1 == n {
        return name.to_owned();
    }
    assert(v@.subrange(1, at as int) =~= rest.take(at - 1));
    slice_text(&v, 1, at)
}

/// Mangled names never collapse: two of them with one key are one name.
pub proof fn law_mangled_names_stay_apart(a: Seq<char>, b: Seq<char>)
    requires
        a.len() > 0 && a[0] == '?',
        b.len() > 0 && b[0] == '?',
        key_of(a) == key_of(b),
    ensures
        a == b,
{
}

/// Looking up a key finds what the name it came from finds.
pub proof fn law_symbol_key_is_its_own_key(name: Seq<char>)
    ensures
        key_of(key_of(name)) == key_of(name),
{
    if is_decorated(name) {
        let rest = name.skip(1);
        let key = key_of(name);
        lemma_first_of(rest, '@');
        assert forall|j: int| 0 <= j < key.len() implies key[j] != '@' by {
            assert(key[j] == rest[j]);
        }
        law_a_name_without_a_count_is_its_own_key(key);
    }
}

/// C decoration is stripped: `_name@N` and `@name@N` have the key `name`.
pub proof fn law_symbol_key_strips_decoration(lead: char, name: Seq<char>, count: Seq<char>)
    requires
        lead == '_' || lead == '@',
        name.len() > 0,
        !name.contains('@'),
        is_number(count),
    ensures
        key_of(seq![lead] + name + seq!['@'] + count) == name,
{
    let s = seq![lead] + name + seq!['@'] + count;
    let rest = name + seq!['@'] + count;
    assert(s.skip(1) =~= rest);
    assert forall|j: int| 0 <= j < name.len() implies rest[j] != '@' by {
        assert(rest[j] == name[j]);
        assert(name.contains(name[j]));
    }
    lemma_first_of_is(rest, '@', name.len() as int);
    assert(rest.take(name.len() as int) =~= name);
    assert(rest.skip(name.len() as int + 1) =~= count);
}

/// Nothing but C decoration is stripped: a name that does not end in `@` and a
/// number, or does not begin with `_` or `@`, is its own key.
pub proof fn law_a_name_without_a_count_is_its_own_key(name: Seq<char>)
    requires
        name.len() == 0 || (name[0] != '_' && name[0] != '@') || forall|i: int|
            0 <= i < name.len() && #[trigger] name[i] == '@' ==> !is_number(name.skip(i + 1)),
    ensures
        key_of(name) == name,
{
    if is_decorated(name) {
        let rest = name.skip(1);
        let at = first_of(rest, '@');
        lemma_first_of(rest, '@');
        assert(name[at + 1] == '@');
        assert(name.skip(at + 2) =~= rest.skip(at + 1));
    }
}

/// The arguments with what stands around them: a gap before each, and one behind
/// the last.
pub open spec fn woven(gaps: Seq<Seq<char>>, args: Seq<Seq<char>>) -> Seq<char>
    decreases args.len(),
{
    if args.len() == 0 || gaps.len() == 0 {
        if gaps.len() == 0 {
            Seq::empty()
        } else {
            gaps[0]
        }
    } else {
        gaps[0] + args[0] + woven(gaps.skip(1), args.skip(1))
    }
}

/// Whether every character of a text is blank.
pub open spec fn all_blank(s: Seq<char>) -> bool {
    forall|i: int| 0 <= i < s.len() ==> is_blank(#[trigger] s[i])
}

/// Whether `gaps` are blanks that make the line together with its arguments.
pub open spec fn are_gaps(s: Seq<char>, gaps: Seq<Seq<char>>) -> bool {
    &&& gaps.len() == args_of(s).len() + 1
    &&& forall|i: int| 0 <= i < gaps.len() ==> all_blank(#[trigger] gaps[i])
    &&& woven(gaps, args_of(s)) == s
}

/// Whether `a` is an argument that ends by itself: a word, or text in quotes.
pub open spec fn is_closed_arg(a: Seq<char>) -> bool {
    &&& a.len() > 0
    &&& if is_quote(a[0]) {
        a.len() >= 2 && first_of(a.skip(1), a[0]) == a.len() - 2
    } else {
        word_len(a) == a.len()
    }
}

/// Whether `a` is an argument: one that ends by itself, or a quote and what
/// follows it.
pub open spec fn is_arg(a: Seq<char>) -> bool {
    is_closed_arg(a) || (a.len() > 0 && is_quote(a[0]) && !a.skip(1).contains(a[0]))
}

proof fn lemma_word_len_is(s: Seq<char>, n: nat)
    requires
        n <= s.len(),
        n < s.len() ==> is_blank(s[n as int]),
        forall|i: int| 0 <= i < n ==> !is_blank(#[trigger] s[i]),
    ensures
        word_len(s) == n,
{
    lemma_word_len(s);
    if word_len(s) < n {
        assert(!is_blank(s[word_len(s) as int]));
    } else if word_len(s) > n {
        assert(!is_blank(s[n as int]));
    }
}

/// What the first argument of a line is.
proof fn lemma_first_arg(s: Seq<char>)
    requires
        s.len() > 0,
        !is_blank(s[0]),
    ensures
        0 < arg_len(s) <= s.len(),
        is_arg(s.take(arg_len(s) as int)),
        arg_len(s) < s.len() ==> is_closed_arg(s.take(arg_len(s) as int)),
{
    lemma_arg_len(s);
    let n = arg_len(s);
    let a = s.take(n as int);
    if is_quote(s[0]) {
        let t = s.skip(1);
        let end = first_of(t, s[0]);
        lemma_first_of(t, s[0]);
        if end < t.len() {
            let u = a.skip(1);
            assert forall|j: int| 0 <= j < end implies u[j] != s[0] by {
                assert(u[j] == t[j]);
            }
            assert(u[end] == t[end]);
            lemma_first_of_is(u, s[0], end);
        } else {
            assert(a =~= s);
        }
    } else {
        lemma_word_len(s);
        assert forall|i: int| 0 <= i < n implies !is_blank(#[trigger] a[i]) by {
            assert(a[i] == s[i]);
        }
        lemma_word_len_is(a, n);
    }
}

/// Splitting a command line loses nothing but the blanks between its arguments,
/// and each of these is an argument; only the last may be a quote that nothing
/// closes.
pub proof fn law_arguments_keep_every_character(s: Seq<char>)
    ensures
        exists|gaps: Seq<Seq<char>>| #[trigger] are_gaps(s, gaps),
        forall|i: int| 0 <= i < args_of(s).len() ==> is_arg(#[trigger] args_of(s)[i]),
        forall|i: int| 0 <= i < args_of(s).len() - 1 ==> is_closed_arg(#[trigger] args_of(s)[i]),
    decreases s.len(),
{
    let args = args_of(s);
    if s.len() == 0 {
        let gaps = seq![Seq::<char>::empty()];
        assert(woven(gaps, args) =~= s);
        assert(are_gaps(s, gaps));
    } else if is_blank(s[0]) {
        let t = s.skip(1);
        law_arguments_keep_every_character(t);
        let rest = choose|gaps: Seq<Seq<char>>| #[trigger] are_gaps(t, gaps);
        let first = seq![s[0]] + rest[0];
        let gaps = rest.update(0, first);
        assert forall|i: int| 0 <= i < gaps.len() implies all_blank(#[trigger] gaps[i]) by {
            if i > 0 {
                assert(gaps[i] == rest[i]);
            } else {
                assert(all_blank(rest[0]));
            }
        }
        assert(s =~= seq![s[0]] + t);
        if args.len() == 0 {
            assert(woven(gaps, args) =~= s);
        } else {
            assert(gaps.skip(1) =~= rest.skip(1));
            assert(woven(gaps, args) =~= seq![s[0]] + woven(rest, args));
        }
        assert(are_gaps(s, gaps));
    } else {
        lemma_first_arg(s);
        let n = arg_len(s) as int;
        let t = s.skip(n);
        law_arguments_keep_every_character(t);
        let rest = choose|gaps: Seq<Seq<char>>| #[trigger] are_gaps(t, gaps);
        let none = Seq::<char>::empty();
        let gaps = seq![none] + rest;
        assert forall|i: int| 0 <= i < gaps.len() implies all_blank(#[trigger] gaps[i]) by {
            if i > 0 {
                assert(gaps[i] == rest[i - 1]);
            }
        }
        assert(gaps.skip(1) =~= rest);
        assert(args.skip(1) =~= args_of(t));
        assert(args[0] == s.take(n));
        assert(woven(gaps, args) =~= s.take(n) + t);
        assert(s =~= s.take(n) + t);
        assert(are_gaps(s, gaps));
        assert forall|i: int| 0 <= i < args.len() implies is_arg(#[trigger] args[i]) by {
            if i > 0 {
                assert(args[i] == args_of(t)[i - 1]);
            }
        }
        assert forall|i: int| 0 <= i < args.len() - 1 implies is_closed_arg(#[trigger] args[i]) by {
            if i > 0 {
                assert(args[i] == args_of(t)[i - 1]);
            }
        }
    }
}

/// An argument that ends by itself is the first of whatever follows it behind a
/// space.
proof fn lemma_arg_then_space(a: Seq<char>, rest: Seq<char>)
    requires
        is_closed_arg(a),
    ensures
        args_of(a + seq![' '] + rest) == seq![a] + args_of(rest),
{
    let s = a + seq![' '] + rest;
    let n = a.len() as int;
    assert(s[0] == a[0]);
    if is_quote(a[0]) {
        let t = s.skip(1);
        let u = a.skip(1);
        lemma_first_of(u, a[0]);
        assert forall|j: int| 0 <= j < n - 2 implies t[j] != a[0] by {
            assert(t[j] == u[j]);
        }
        assert(t[n - 2] == u[n - 2]);
        lemma_first_of_is(t, a[0], n - 2);
    } else {
        lemma_word_len(a);
        assert(!is_blank(a[0]));
        assert forall|i: int| 0 <= i < n implies !is_blank(#[trigger] s[i]) by {
            assert(s[i] == a[i]);
        }
        lemma_word_len_is(s, a.len());
    }
    assert(arg_len(s) == n);
    assert(s.take(n) =~= a);
    let behind = s.skip(n);
    assert(behind =~= seq![' '] + rest);
    assert(behind.skip(1) =~= rest);
    assert(args_of(behind) == args_of(rest));
}

/// An argument alone is its only one.
proof fn lemma_arg_alone(a: Seq<char>)
    requires
        is_arg(a),
    ensures
        args_of(a) == seq![a],
{
    let n = a.len() as int;
    if is_quote(a[0]) {
        lemma_first_of(a.skip(1), a[0]);
    } else {
        lemma_word_len(a);
    }
    assert(arg_len(a) == n);
    assert(!is_blank(a[0]));
    assert(a.take(n) =~= a);
    assert(a.skip(n) =~= Seq::<char>::empty());
    assert(args_of(a.skip(n)) =~= Seq::<Seq<char>>::empty());
    assert(args_of(a) =~= seq![a]);
}

/// Splitting gives back what was joined: arguments with a space between each two
/// are split into themselves.
pub proof fn law_joined_arguments_split_into_themselves(args: Seq<Seq<char>>)
    requires
        forall|i: int| 0 <= i < args.len() ==> is_arg(#[trigger] args[i]),
        forall|i: int| 0 <= i < args.len() - 1 ==> is_closed_arg(#[trigger] args[i]),
    ensures
        args_of(joined(args, seq![' '])) == args,
    decreases args.len(),
{
    let space = seq![' '];
    if args.len() == 0 {
        assert(args_of(joined(args, space)) =~= args);
    } else if args.len() == 1 {
        lemma_arg_alone(args[0]);
        assert(seq![args[0]] =~= args);
    } else {
        let rest = args.skip(1);
        assert forall|i: int| 0 <= i < rest.len() implies is_arg(#[trigger] rest[i]) by {
            assert(rest[i] == args[i + 1]);
        }
        assert forall|i: int| 0 <= i < rest.len() - 1 implies is_closed_arg(#[trigger] rest[i]) by {
            assert(rest[i] == args[i + 1]);
        }
        law_joined_arguments_split_into_themselves(rest);
        lemma_joined_first(args, space);
        lemma_arg_then_space(args[0], joined(rest, space));
        assert(seq![args[0]] + rest =~= args);
    }
}

/// Splitting a command line, joining the arguments with spaces and splitting
/// again changes nothing.
pub proof fn law_splitting_again_changes_nothing(s: Seq<char>)
    ensures
        args_of(joined(args_of(s), seq![' '])) == args_of(s),
{
    law_arguments_keep_every_character(s);
    law_joined_arguments_split_into_themselves(args_of(s));
}

/// `s` without its blanks outside double quotes, where `odd` tells whether it
/// begins within some.
pub open spec fn without_gaps(s: Seq<char>, odd: bool) -> Seq<char>
    decreases s.len(),
{
    if s.len() == 0 {
        s
    } else if is_blank(s[0]) && !odd {
        without_gaps(s.skip(1), odd)
    } else {
        seq![s[0]] + without_gaps(s.skip(1), if s[0] == '"' { !odd } else { odd })
    }
}

/// Whether `s` holds an odd number of double quotes.
pub open spec fn has_odd_quotes(s: Seq<char>) -> bool
    decreases s.len(),
{
    s.len() > 0 && (has_odd_quotes(s.skip(1)) != (s[0] == '"'))
}

/// Whether every double quote that opens stands at the start of an argument: at
/// the start of the line, behind a blank, or behind a quote that closes. `starts`
/// tells whether the line begins so, and `odd` whether it begins within quotes.
pub open spec fn opens_at_starts(s: Seq<char>, starts: bool, odd: bool) -> bool
    decreases s.len(),
{
    if s.len() == 0 {
        true
    } else if odd {
        opens_at_starts(s.skip(1), s[0] == '"', s[0] != '"')
    } else if s[0] == '"' {
        starts && opens_at_starts(s.skip(1), false, true)
    } else {
        opens_at_starts(s.skip(1), is_blank(s[0]), false)
    }
}

/// Where only double quotes are used, and to quote whole arguments, the arguments
/// are the line without its blanks outside quotes, and every one but the last
/// holds its quotes in pairs.
pub proof fn law_double_quotes_protect_blanks(s: Seq<char>)
    requires
        !s.contains('\''),
        opens_at_starts(s, true, false),
    ensures
        args_of(s).flatten() == without_gaps(s, false),
        forall|i: int| 0 <= i < args_of(s).len() - 1 ==> !has_odd_quotes(#[trigger] args_of(s)[i]),
    decreases s.len(),
{
    let args = args_of(s);
    if s.len() == 0 {
        assert(args.flatten() =~= s);
    } else if is_blank(s[0]) {
        lemma_skip_lacks(s, 1, '\'');
        law_double_quotes_protect_blanks(s.skip(1));
    } else {
        lemma_first_arg(s);
        assert(s.contains(s[0]));
        let n = arg_len(s) as int;
        let t = s.skip(n);
        lemma_skip_lacks(s, n, '\'');
        if s[0] == '"' {
            let end = first_of(s.skip(1), '"');
            lemma_first_of(s.skip(1), '"');
            lemma_quoted_run(s.skip(1), end);
            if end < s.len() - 1 {
                assert(s.skip(1).skip(end + 1) =~= t);
                assert(s.take(n).skip(1) =~= s.skip(1).take(end + 1));
                assert(s.take(n) =~= seq![s[0]] + s.skip(1).take(end + 1));
            } else {
                assert(s.skip(1).take(end) =~= s.skip(1));
                assert(s.take(n) =~= s);
                assert(t =~= Seq::<char>::empty());
                assert(s =~= seq![s[0]] + s.skip(1));
            }
        } else {
            lemma_word_run(s, true);
        }
        law_double_quotes_protect_blanks(t);
        assert(args.drop_first() =~= args_of(t));
        assert(args.first() == s.take(n));
        assert(args.flatten() == s.take(n) + args_of(t).flatten());
        assert(s.take(n) + without_gaps(t, false) =~= without_gaps(s, false));
        assert forall|i: int| 0 <= i < args.len() - 1 implies !has_odd_quotes(#[trigger] args[i]) by {
            if i > 0 {
                assert(args[i] == args_of(t)[i - 1]);
            } else {
                assert(t.len() > 0);
            }
        }
    }
}

proof fn lemma_skip_lacks(s: Seq<char>, n: int, c: char)
    requires
        !s.contains(c),
        0 <= n <= s.len(),
    ensures
        !s.skip(n).contains(c),
{
    let t = s.skip(n);
    if t.contains(c) {
        let k = choose|k: int| 0 <= k < t.len() && t[k] == c;
        assert(s[k + n] == c);
    }
}

/// Within quotes everything is kept up to the quote that closes, which stands at
/// `end`, or up to the end where there is none.
proof fn lemma_quoted_run(s: Seq<char>, end: int)
    requires
        end == first_of(s, '"'),
    ensures
        0 <= end <= s.len(),
        end < s.len() ==> {
            &&& without_gaps(s, true) == s.take(end + 1) + without_gaps(s.skip(end + 1), false)
            &&& has_odd_quotes(s.take(end + 1))
            &&& opens_at_starts(s, false, true) ==> opens_at_starts(s.skip(end + 1), true, false)
        },
        end == s.len() ==> without_gaps(s, true) == s,
    decreases s.len(),
{
    lemma_first_of(s, '"');
    if s.len() == 0 {
    } else if s[0] == '"' {
        let one = s.take(1);
        assert(one =~= seq![s[0]]);
        assert(!has_odd_quotes(one.skip(1)));
    } else {
        let t = s.skip(1);
        lemma_quoted_run(t, end - 1);
        if end < s.len() {
            assert(t.skip(end) =~= s.skip(end + 1));
            assert(s.take(end + 1) =~= seq![s[0]] + t.take(end));
            assert(s.take(end + 1).skip(1) =~= t.take(end));
            assert(without_gaps(s, true) =~= s.take(end + 1) + without_gaps(s.skip(end + 1), false));
            assert(opens_at_starts(s, false, true) ==> opens_at_starts(t, false, true));
        } else {
            assert(seq![s[0]] + t =~= s);
        }
    }
}

/// A word holds no quotes where only arguments begin with them, and is kept.
proof fn lemma_word_run(s: Seq<char>, starts: bool)
    requires
        s.len() > 0 ==> s[0] != '"' || !starts,
        opens_at_starts(s, starts, false),
    ensures
        word_len(s) <= s.len(),
        without_gaps(s, false) == s.take(word_len(s) as int) + without_gaps(s.skip(word_len(s) as int), false),
        !has_odd_quotes(s.take(word_len(s) as int)),
        opens_at_starts(s.skip(word_len(s) as int), true, false),
    decreases s.len(),
{
    let n = word_len(s) as int;
    if s.len() == 0 || is_blank(s[0]) {
        assert(s.skip(0) =~= s);
        assert(s.take(0) =~= Seq::<char>::empty());
        assert(s.take(0) + without_gaps(s, false) =~= without_gaps(s, false));
    } else {
        let t = s.skip(1);
        lemma_word_run(t, false);
        assert(t.skip(n - 1) =~= s.skip(n));
        assert(s.take(n) =~= seq![s[0]] + t.take(n - 1));
        assert(s.take(n).skip(1) =~= t.take(n - 1));
        assert(without_gaps(s, false) =~= s.take(n) + without_gaps(s.skip(n), false));
    }
}

/// `s` without the suffix of a source or an object file.
pub open spec fn without_suffix(s: Seq<char>) -> Seq<char> {
    if ends_with(s, ".cpp"@) || ends_with(s, ".obj"@) {
        s.take(s.len() - 4)
    } else {
        s
    }
}

/// What a unit is called in the given name: its last component, without a file
/// suffix.
pub open spec fn unit_base(name: Seq<char>) -> Seq<char> {
    let path = forward(name);
    without_suffix(path.skip(last_of(path, '/') + 1))
}

/// A library's name up to its first dot.
pub open spec fn first_piece(name: Seq<char>) -> Seq<char> {
    name.take(first_of(name, '.'))
}

/// Whether a library goes by the given name, with or without what follows its
/// first dot.
pub open spec fn goes_by(key: Seq<char>, base: Seq<char>) -> bool {
    key == base || first_piece(key) == base
}

/// The first library from `i` on that goes by the given name, or the number of
/// libraries where none does.
pub open spec fn unit_index(keys: Seq<Seq<char>>, base: Seq<char>, i: int) -> int
    decreases keys.len() - i,
{
    if i < 0 || i >= keys.len() {
        keys.len() as int
    } else if goes_by(keys[i], base) {
        i
    } else {
        unit_index(keys, base, i + 1)
    }
}

/// The library that a name means: the one that is called so, or else the first
/// that goes by it.
pub open spec fn resolved_unit(keys: Seq<Seq<char>>, name: Seq<char>) -> Option<Seq<char>> {
    let base = unit_base(name);
    let i = unit_index(keys, base, 0);
    if keys.contains(base) {
        Some(base)
    } else if i < keys.len() {
        Some(keys[i])
    } else {
        None
    }
}

fn base_of(name: &str) -> (r: String)
    ensures
        r@ == unit_base(name@),
{
    let path = to_forward_path(name);
    let v = to_chars(path.as_str());
    let n = v.len();
    let from = after_last(&v, '/');
    let last = slice_text(&v, from, n);
    assert(last@ =~= v@.skip(from as int));
    if text_ends_with(last.as_str(), ".cpp") || text_ends_with(last.as_str(), ".obj") {
        proof {
            reveal_strlit(".cpp");
            reveal_strlit(".obj");
        }
        let r = slice_text(&v, from, n - 4);
        assert(r@ =~= last@.take(last@.len() - 4));
        r
    } else {
        last
    }
}

fn is_called(key: &str, base: &str) -> (r: bool)
    ensures
        r == goes_by(key@, base@),
{
    if same_text(key, base) {
        return true;
    }
    let v = to_chars(key);
    let end = find_from(&v, 0, '.');
    assert(v@.skip(0) =~= v@);
    let piece = slice_text(&v, 0, end);
    assert(piece@ =~= first_piece(key@));
    same_text(piece.as_str(), base)
}

/// Accepts "x86math", "x86math.dll", "src/x86math.dll.cpp", and the object-file
/// forms "x86math.dll.obj" / "src/x86math.dll.obj" -> "x86math.dll".
pub fn norm_unit(objects: &Objects, name: &str) -> (r: Result<String, UnitError>)
    ensures
        match resolved_unit(keys_of(lib_entries(*objects)), name@) {
            Some(unit) => r is Ok && r->Ok_0@ == unit,
            None => r is Err && r->Err_0@ == crate::codegen::UnitErrorFacts::Unknown(name@),
        },
{
    let ghost entries = lib_entries(*objects);
    let ghost keys = keys_of(entries);
    let base = base_of(name);
    proof {
        lemma_lookup(entries, base@);
    }
    if lib_get(objects, base.as_str()).is_some() {
        return Ok(base);
    }
    let n = lib_count(objects);
    let mut i: usize = 0;
    while i < n
        invariant
            i <= n,
            entries == lib_entries(*objects),
            keys == keys_of(entries),
            n == keys.len(),
            base@ == unit_base(name@),
            !keys.contains(base@),
            unit_index(keys, base@, 0) == unit_index(keys, base@, i as int),
        decreases n - i,
    {
        if let Some((key, _)) = lib_at(objects, i) {
            assert(keys[i as int] == key@);
            if is_called(key.as_str(), base.as_str()) {
                return Ok(key.as_str().to_owned());
            }
        }
        i = i + 1;
    }
    Err(UnitError::Unknown(name.to_owned()))
}

/// The units that the first `n` names mean, or the first name that means none.
pub open spec fn resolved_units(keys: Seq<Seq<char>>, names: Seq<Seq<char>>, n: nat) -> Result<
    Seq<Seq<char>>,
    Seq<char>,
>
    decreases n,
{
    if n == 0 {
        Ok(Seq::empty())
    } else {
        match resolved_units(keys, names, (n - 1) as nat) {
            Err(e) => Err(e),
            Ok(units) => match resolved_unit(keys, names[n - 1]) {
                Some(unit) => Ok(units.push(unit)),
                None => Err(names[n - 1]),
            },
        }
    }
}

proof fn lemma_first_unresolved(keys: Seq<Seq<char>>, names: Seq<Seq<char>>, m: nat, n: nat)
    requires
        m <= n,
        resolved_units(keys, names, m) is Err,
    ensures
        resolved_units(keys, names, n) == resolved_units(keys, names, m),
    decreases n,
{
    if m < n {
        lemma_first_unresolved(keys, names, m, (n - 1) as nat);
    }
}

/// Resolves every name, or reports the first that means no unit.
pub fn norm_units(objects: &Objects, names: &Vec<String>) -> (r: Result<Vec<String>, UnitError>)
    ensures
        match resolved_units(keys_of(lib_entries(*objects)), texts(names@), names@.len()) {
            Ok(units) => r is Ok && texts(r->Ok_0@) == units,
            Err(name) => r is Err && r->Err_0@ == crate::codegen::UnitErrorFacts::Unknown(name),
        },
{
    let ghost keys = keys_of(lib_entries(*objects));
    let ghost all = texts(names@);
    let n = names.len();
    let mut out: Vec<String> = Vec::new();
    let mut i: usize = 0;
    assert(texts(out@) =~= Seq::empty());
    while i < n
        invariant
            i <= n,
            n == names@.len(),
            all == texts(names@),
            keys == keys_of(lib_entries(*objects)),
            resolved_units(keys, all, i as nat) == Ok::<Seq<Seq<char>>, Seq<char>>(texts(out@)),
        decreases n - i,
    {
        assert(all[i as int] == names@[i as int]@);
        match norm_unit(objects, names[i].as_str()) {
            Ok(unit) => {
                let ghost before = texts(out@);
                let ghost u = unit@;
                out.push(unit);
                assert(texts(out@) =~= before.push(u));
            },
            Err(e) => {
                proof {
                    lemma_first_unresolved(keys, all, (i + 1) as nat, n as nat);
                }
                return Err(e);
            },
        }
        i = i + 1;
    }
    Ok(out)
}

/// The build targets of the given units.
pub fn build_targets(config_id: &str, units: &Vec<String>) -> (r: Vec<String>)
    ensures
        texts(r@) == Seq::new(units@.len(), |i: int| obj_path(config_id@, units@[i]@)),
{
    let n = units.len();
    let mut out: Vec<String> = Vec::new();
    let mut i: usize = 0;
    while i < n
        invariant
            i <= n,
            n == units@.len(),
            out@.len() == i,
            forall|j: int| 0 <= j < i ==> (#[trigger] out@[j])@ == obj_path(config_id@, units@[j]@),
        decreases n - i,
    {
        out.push(obj_target(config_id, units[i].as_str()));
        i = i + 1;
    }
    assert(texts(out@) =~= Seq::new(units@.len(), |i: int| obj_path(config_id@, units@[i]@)));
    out
}

proof fn lemma_unit_index(keys: Seq<Seq<char>>, base: Seq<char>, i: int)
    requires
        0 <= i <= keys.len(),
    ensures
        i <= unit_index(keys, base, i) <= keys.len(),
        unit_index(keys, base, i) < keys.len() ==> goes_by(keys[unit_index(keys, base, i)], base),
        forall|j: int| i <= j < unit_index(keys, base, i) ==> !goes_by(#[trigger] keys[j], base),
    decreases keys.len() - i,
{
    if i < keys.len() && !goes_by(keys[i], base) {
        lemma_unit_index(keys, base, i + 1);
    }
}

/// A name means a unit just where a library goes by it, and then one that does.
pub proof fn law_resolved_unit_goes_by_its_name(keys: Seq<Seq<char>>, name: Seq<char>)
    ensures
        match resolved_unit(keys, name) {
            Some(unit) => keys.contains(unit) && goes_by(unit, unit_base(name)),
            None => forall|i: int| 0 <= i < keys.len() ==> !goes_by(#[trigger] keys[i], unit_base(name)),
        },
{
    lemma_unit_index(keys, unit_base(name), 0);
}

/// A library is meant by the names of its source and of its object, with or
/// without a directory, whichever way the slashes lean.
pub proof fn law_source_and_object_names_mean_their_unit(keys: Seq<Seq<char>>, key: Seq<char>, dir: Seq<char>)
    requires
        keys.contains(key),
        !key.contains('/'),
        !key.contains('\\'),
        dir.len() == 0 || dir.last() == '/' || dir.last() == '\\',
    ensures
        resolved_unit(keys, dir + key + ".cpp"@) == Some(key),
        resolved_unit(keys, dir + key + ".obj"@) == Some(key),
        !ends_with(key, ".cpp"@) && !ends_with(key, ".obj"@) ==> resolved_unit(keys, dir + key) == Some(key),
{
    reveal_strlit(".cpp");
    reveal_strlit(".obj");
    lemma_last_component(dir, key, ".cpp"@);
    lemma_last_component(dir, key, ".obj"@);
    let cpp = key + ".cpp"@;
    let obj = key + ".obj"@;
    assert(cpp.subrange(cpp.len() - 4, cpp.len() as int) =~= ".cpp"@);
    assert(obj.subrange(obj.len() - 4, obj.len() as int) =~= ".obj"@);
    assert(cpp.take(cpp.len() - 4) =~= key);
    assert(obj.take(obj.len() - 4) =~= key);
    let none = Seq::<char>::empty();
    lemma_last_component(dir, key, none);
    assert(dir + key + none =~= dir + key);
    assert(key + none =~= key);
}

proof fn lemma_last_component(dir: Seq<char>, key: Seq<char>, suffix: Seq<char>)
    requires
        !key.contains('/'),
        !key.contains('\\'),
        !suffix.contains('/'),
        !suffix.contains('\\'),
        dir.len() == 0 || dir.last() == '/' || dir.last() == '\\',
    ensures
        ({
            let path = forward(dir + key + suffix);
            path.skip(last_of(path, '/') + 1) == key + suffix
        }),
{
    let path = forward(dir + key + suffix);
    let name = key + suffix;
    assert forall|j: int| dir.len() <= j < path.len() implies path[j] == name[j - dir.len()] && path[j] != '/' by {
        let c = name[j - dir.len()];
        if j - dir.len() < key.len() {
            assert(c == key[j - dir.len()]);
            assert(key.contains(c));
        } else {
            assert(c == suffix[j - dir.len() - key.len()]);
            assert(suffix.contains(c));
        }
    }
    lemma_last_of(path, '/');
    if dir.len() > 0 {
        assert(path[dir.len() - 1] == '/');
    }
    assert(last_of(path, '/') == dir.len() - 1);
    assert(path.skip(dir.len() as int) =~= name);
}

/// The platforms the tools run on.
#[derive(Clone, Copy, PartialEq, Eq, Structural)]
pub enum Platform {
    Windows,
    Linux,
}

/// One compile command, ready to be run.
pub struct CompileStep {
    /// The command line without the whitespace around it.
    pub line: String,
    /// Its arguments without the quotes around them.
    pub parts: Vec<String>,
    /// Where its object goes, where it says so.
    pub output: Option<String>,
    /// Whether it runs Microsoft's compiler.
    pub is_compiler: bool,
}

/// What a compile command holds.
pub struct StepFacts {
    pub line: Seq<char>,
    pub parts: Seq<Seq<char>>,
    pub output: Option<Seq<char>>,
    pub is_compiler: bool,
}

impl View for CompileStep {
    type V = StepFacts;

    open spec fn view(&self) -> StepFacts {
        StepFacts {
            line: self.line@,
            parts: texts(self.parts@),
            output: opt_text(self.output),
            is_compiler: self.is_compiler,
        }
    }
}

/// The arguments of a command line without the quotes around them.
pub open spec fn bare_args(line: Seq<char>) -> Seq<Seq<char>> {
    Seq::new(args_of(line).len(), |i: int| unquoted(args_of(line)[i]))
}

/// The compile command on a line; none on a blank one.
pub open spec fn step_on(raw: Seq<char>) -> Option<StepFacts> {
    let line = trim(raw);
    let parts = bare_args(line);
    if parts.len() == 0 {
        None
    } else {
        Some(
            StepFacts {
                line,
                parts,
                output: output_from(parts, 0),
                is_compiler: ends_with(lowercase(parts[0]), "cl.exe"@),
            },
        )
    }
}

/// Reads the compile command on a line of ninja's list.
pub fn compile_step(raw: &str) -> (r: Option<CompileStep>)
    ensures
        match step_on(raw@) {
            Some(step) => r is Some && r->0@ == step,
            None => r is None,
        },
{
    let line = trim_text(raw);
    let args = shlex_split_non_posix(line.as_str());
    let ghost all = args_of(line@);
    let n = args.len();
    let mut parts: Vec<String> = Vec::new();
    let mut i: usize = 0;
    assert(all.len() == n);
    while i < n
        invariant
            i <= n,
            n == args@.len(),
            n == all.len(),
            all == texts(args@),
            parts@.len() == i,
            forall|j: int| 0 <= j < i ==> (#[trigger] parts@[j])@ == unquoted(all[j]),
        decreases n - i,
    {
        assert(all[i as int] == args@[i as int]@);
        parts.push(strip_arg_quotes(args[i].as_str()));
        i = i + 1;
    }
    assert(texts(parts@) =~= bare_args(line@));
    if n == 0 {
        return None;
    }
    let output = compile_output_path(&parts);
    assert(texts(parts@)[0] == parts@[0]@);
    let is_compiler = text_ends_with(to_lower(parts[0].as_str()).as_str(), "cl.exe");
    Some(CompileStep { line, parts, output, is_compiler })
}

/// The compile commands on the first `n` lines.
pub open spec fn steps_on(ls: Seq<Seq<char>>, n: nat) -> Seq<StepFacts>
    decreases n,
{
    if n == 0 || n > ls.len() {
        Seq::empty()
    } else {
        match step_on(ls[n - 1]) {
            Some(step) => steps_on(ls, (n - 1) as nat).push(step),
            None => steps_on(ls, (n - 1) as nat),
        }
    }
}

/// What the commands of a list hold.
pub open spec fn step_facts(steps: Seq<CompileStep>) -> Seq<StepFacts> {
    Seq::new(steps.len(), |i: int| steps[i]@)
}

/// Reads the compile commands that ninja lists.
pub fn compile_steps(listing: &str) -> (r: Vec<CompileStep>)
    ensures
        step_facts(r@) == steps_on(lines(listing@), lines(listing@).len()),
{
    let ls = text_lines(listing);
    let ghost all = lines(listing@);
    let n = ls.len();
    let mut out: Vec<CompileStep> = Vec::new();
    let mut i: usize = 0;
    assert(step_facts(out@) =~= Seq::empty());
    assert(all.len() == n);
    while i < n
        invariant
            i <= n,
            n == ls@.len(),
            n == all.len(),
            all == texts(ls@),
            step_facts(out@) == steps_on(all, i as nat),
        decreases n - i,
    {
        assert(all[i as int] == ls@[i as int]@);
        if let Some(step) = compile_step(ls[i].as_str()) {
            let ghost before = step_facts(out@);
            let ghost s = step@;
            out.push(step);
            assert(step_facts(out@) =~= before.push(s));
        }
        i = i + 1;
    }
    out
}

/// What is run for a compile command. The compiler runs under Wine where it
/// cannot run itself.
pub open spec fn command_line(step: StepFacts, platform: Platform, exe: Seq<char>) -> Seq<Seq<char>> {
    if !step.is_compiler {
        step.parts
    } else if platform == Platform::Windows {
        seq![exe] + step.parts.skip(1)
    } else {
        seq!["wine"@, exe] + step.parts.skip(1)
    }
}

/// What is run for a compile command: its arguments, with the full path of the
/// compiler in place of its name, and Wine before it everywhere but on Windows,
/// since the compiler has no other build.
pub fn compile_argv(step: &CompileStep, platform: Platform, exe: &str) -> (r: Vec<String>)
    requires
        step.parts@.len() > 0,
    ensures
        texts(r@) == command_line(step@, platform, exe@),
{
    let ghost all = texts(step.parts@);
    let n = step.parts.len();
    let mut out: Vec<String> = Vec::new();
    if step.is_compiler {
        if platform != Platform::Windows {
            out.push("wine".to_owned());
        }
        out.push(exe.to_owned());
    } else {
        out.push(step.parts[0].as_str().to_owned());
    }
    let ghost start = texts(out@);
    let mut i: usize = 1;
    assert(start + all.subrange(1, 1) =~= start);
    while i < n
        invariant
            1 <= i <= n,
            n == step.parts@.len(),
            all == texts(step.parts@),
            all.len() == n,
            texts(out@) == start + all.subrange(1, i as int),
        decreases n - i,
    {
        let ghost before = texts(out@);
        out.push(step.parts[i].as_str().to_owned());
        assert(texts(out@) =~= before.push(all[i as int]));
        assert(before.push(all[i as int]) =~= start + all.subrange(1, i + 1));
        i = i + 1;
    }
    assert(all.subrange(1, n as int) =~= all.skip(1));
    assert(texts(out@) =~= command_line(step@, platform, exe@)) by {
        if !step.is_compiler {
            assert(start =~= seq![all[0]]);
            assert(start + all.skip(1) =~= all);
        } else if platform == Platform::Windows {
            assert(start =~= seq![exe@]);
        } else {
            assert(start =~= seq!["wine"@, exe@]);
        }
    }
    out
}

/// Whether a compile command cannot run without Wine: the compiler, anywhere but
/// on Windows.
pub open spec fn wants_wine(step: StepFacts, platform: Platform) -> bool {
    step.is_compiler && platform != Platform::Windows
}

/// Tells whether a compile command cannot run without Wine.
pub fn needs_wine(step: &CompileStep, platform: Platform) -> (r: bool)
    ensures
        r == wants_wine(step@, platform),
{
    step.is_compiler && platform != Platform::Windows
}

/// What is said where Wine is needed and not there.
pub const WINE_MISSING: &'static str = "MSVC6 compilation requires Wine on non-Windows platforms; install it \
    (e.g. `apt install wine`) and ensure `wine` is on PATH";

/// What is run for a compile command, or that Wine is missing: needed, and not
/// there.
pub fn compile_command(step: &CompileStep, platform: Platform, exe: &str, has_wine: bool) -> (r: Result<
    Vec<String>,
    String,
>)
    requires
        step.parts@.len() > 0,
    ensures
        match r {
            Ok(argv) => (wants_wine(step@, platform) ==> has_wine) && texts(argv@) == command_line(
                step@,
                platform,
                exe@,
            ),
            Err(message) => wants_wine(step@, platform) && !has_wine && message@ == WINE_MISSING@,
        },
{
    if needs_wine(step, platform) && !has_wine {
        return Err(WINE_MISSING.to_owned());
    }
    Ok(compile_argv(step, platform, exe))
}

/// A word is an argument as it is: it ends at a space, a tab or the end of a
/// line, and whatever quotes stand behind its first character are part of it.
pub proof fn law_a_word_ends_at_white_space(word: Seq<char>, c: char, rest: Seq<char>)
    requires
        word.len() > 0,
        word[0] != '"' && word[0] != '\'',
        forall|i: int|
            0 <= i < word.len() ==> {
                let w = #[trigger] word[i];
                w != ' ' && w != '\t' && w != '\r' && w != '\n'
            },
        c == ' ' || c == '\t' || c == '\r' || c == '\n',
    ensures
        args_of(word + seq![c] + rest) == seq![word] + args_of(rest),
        args_of(word) == seq![word],
        args_of(seq![c] + rest) == args_of(rest),
{
    let s = word + seq![c] + rest;
    let n = word.len() as int;
    assert(s[0] == word[0]);
    assert(s[n] == c);
    assert forall|i: int| 0 <= i < n implies !is_blank(#[trigger] s[i]) by {
        assert(s[i] == word[i]);
    }
    lemma_word_len_is(s, word.len());
    lemma_word_len_is(word, word.len());
    assert(s.take(n) =~= word);
    assert(s.skip(n) =~= seq![c] + rest);
    assert((seq![c] + rest).skip(1) =~= rest);
    assert(args_of(s.skip(n)) == args_of(rest));
    lemma_arg_alone(word);
}

/// An argument that begins with a quote, single or double, reaches to the next
/// such quote, blanks and all, and keeps both; the next one may follow at once.
pub proof fn law_a_quoted_argument_ends_at_its_quote(quote: char, body: Seq<char>, rest: Seq<char>)
    requires
        quote == '"' || quote == '\'',
        !body.contains(quote),
    ensures
        args_of(seq![quote] + body + seq![quote] + rest) == seq![seq![quote] + body + seq![quote]] + args_of(rest),
        args_of(seq![quote] + body) == seq![seq![quote] + body],
{
    let s = seq![quote] + body + seq![quote] + rest;
    let a = seq![quote] + body + seq![quote];
    let n = a.len() as int;
    let t = s.skip(1);
    assert forall|j: int| 0 <= j < body.len() implies t[j] != quote by {
        assert(body.contains(body[j]));
    }
    lemma_first_of_is(t, quote, body.len() as int);
    assert(arg_len(s) == n);
    assert(s.take(n) =~= a);
    assert(s.skip(n) =~= rest);
    let open = seq![quote] + body;
    assert(open.skip(1) =~= body);
    lemma_arg_alone(open);
}

/// One pair of double quotes around an argument is taken away, and nothing else.
pub proof fn law_one_pair_of_quotes_is_taken_away(s: Seq<char>)
    ensures
        unquoted(seq!['"'] + s + seq!['"']) == s,
        s.len() < 2 || s[0] != '"' || s[s.len() - 1] != '"' ==> unquoted(s) == s,
{
    let q = seq!['"'] + s + seq!['"'];
    assert(q.subrange(1, q.len() - 1) =~= s);
}

/// Whether an argument tells where the output goes: one that begins with `/Fo`
/// and goes on, or `-o` before another.
pub open spec fn tells_output(parts: Seq<Seq<char>>, i: int) -> bool {
    ||| parts[i].len() > 3 && parts[i][0] == '/' && parts[i][1] == 'F' && parts[i][2] == 'o'
    ||| parts[i].len() == 2 && parts[i][0] == '-' && parts[i][1] == 'o' && i + 1 < parts.len()
}

/// The output goes where the first argument that tells of it says: behind its
/// `/Fo`, or as the argument behind its `-o`. Where none tells, nothing is known.
pub proof fn law_the_first_output_counts(parts: Seq<Seq<char>>, i: int)
    requires
        0 <= i <= parts.len(),
        i < parts.len() ==> tells_output(parts, i),
        forall|j: int| 0 <= j < i ==> !#[trigger] tells_output(parts, j),
    ensures
        i == parts.len() ==> output_from(parts, 0) is None,
        i < parts.len() && parts[i][0] == '/' ==> output_from(parts, 0) == Some(parts[i].skip(3)),
        i < parts.len() && parts[i][0] == '-' ==> output_from(parts, 0) == Some(parts[i + 1]),
{
    lemma_no_output_before(parts, i, 0);
    if i < parts.len() {
        lemma_output_at(parts, i);
    }
}

proof fn lemma_output_at(parts: Seq<Seq<char>>, i: int)
    requires
        0 <= i < parts.len(),
    ensures
        output_at(parts, i) is Some <==> tells_output(parts, i),
        tells_output(parts, i) && parts[i][0] == '/' ==> output_at(parts, i) == Some(parts[i].skip(3)),
        tells_output(parts, i) && parts[i][0] == '-' ==> output_at(parts, i) == Some(parts[i + 1]),
{
    reveal_strlit("/Fo");
    reveal_strlit("-o");
    let p = parts[i];
    if p.len() > 3 {
        if p[0] == '/' && p[1] == 'F' && p[2] == 'o' {
            assert(p.subrange(0, 3) =~= "/Fo"@);
        } else if begins_with(p, "/Fo"@) {
            assert(p.subrange(0, 3)[0] == p[0] && p.subrange(0, 3)[1] == p[1] && p.subrange(0, 3)[2] == p[2]);
        }
    }
    if p.len() == 2 && p[0] == '-' && p[1] == 'o' {
        assert(p =~= "-o"@);
    }
}

proof fn lemma_no_output_before(parts: Seq<Seq<char>>, i: int, from: int)
    requires
        0 <= from <= i <= parts.len(),
        forall|j: int| 0 <= j < i ==> !#[trigger] tells_output(parts, j),
    ensures
        output_from(parts, from) == output_from(parts, i),
    decreases i - from,
{
    if from < i {
        assert(!tells_output(parts, from));
        lemma_output_at(parts, from);
        lemma_no_output_before(parts, i, from + 1);
    }
}

/// A library goes by its whole name, and by what stands before the first dot of
/// it.
pub proof fn law_a_library_goes_by_its_first_piece(piece: Seq<char>, rest: Seq<char>, other: Seq<char>)
    requires
        !piece.contains('.'),
    ensures
        goes_by(piece + "."@ + rest, other) <==> other == piece || other == piece + "."@ + rest,
        goes_by(piece, other) <==> other == piece,
{
    reveal_strlit(".");
    let key = piece + "."@ + rest;
    assert forall|j: int| 0 <= j < piece.len() implies key[j] != '.' by {
        assert(piece.contains(piece[j]));
    }
    lemma_first_of_is(key, '.', piece.len() as int);
    assert(key.take(piece.len() as int) =~= piece);
    lemma_first_of(piece, '.');
    assert(piece.take(piece.len() as int) =~= piece);
}

/// A library that is called so is meant before any other; without one the first
/// that goes by the name is.
pub proof fn law_the_first_library_of_a_name_is_meant(keys: Seq<Seq<char>>, name: Seq<char>, i: int)
    requires
        0 <= i < keys.len(),
        goes_by(keys[i], unit_base(name)),
        forall|j: int| 0 <= j < i ==> !goes_by(#[trigger] keys[j], unit_base(name)),
    ensures
        keys.contains(unit_base(name)) ==> resolved_unit(keys, name) == Some(unit_base(name)),
        !keys.contains(unit_base(name)) ==> resolved_unit(keys, name) == Some(keys[i]),
{
    let base = unit_base(name);
    lemma_unit_index(keys, base, 0);
    let at = unit_index(keys, base, 0);
    if at < i {
        assert(!goes_by(keys[at], base));
    } else if at > i {
        assert(!goes_by(keys[i], base));
    }
}

/// Every name is resolved, in their order; the first that means no unit is told.
pub proof fn law_every_name_is_resolved(keys: Seq<Seq<char>>, names: Seq<Seq<char>>, n: nat)
    requires
        n <= names.len(),
    ensures
        match resolved_units(keys, names, n) {
            Ok(units) => units.len() == n && forall|i: int|
                0 <= i < n ==> resolved_unit(keys, #[trigger] names[i]) == Some(units[i]),
            Err(bad) => exists|i: int|
                0 <= i < n && #[trigger] names[i] == bad && resolved_unit(keys, names[i]) is None && forall|j: int|
                    0 <= j < i ==> resolved_unit(keys, #[trigger] names[j]) is Some,
        },
    decreases n,
{
    if n > 0 {
        law_every_name_is_resolved(keys, names, (n - 1) as nat);
        match resolved_units(keys, names, (n - 1) as nat) {
            Ok(units) => {
                assert forall|j: int| 0 <= j < n - 1 implies resolved_unit(keys, #[trigger] names[j]) is Some by {
                    assert(resolved_unit(keys, names[j]) == Some(units[j]));
                }
            },
            Err(bad) => {
                let i = choose|i: int|
                    0 <= i < n - 1 && #[trigger] names[i] == bad && resolved_unit(keys, names[i]) is None && (forall|
                        j: int,
                    |
                        0 <= j < i ==> resolved_unit(keys, #[trigger] names[j]) is Some);
                assert(names[i] == bad);
            },
        }
    }
}

/// Every line that is not blank is a command, in their order, with its arguments
/// bare of quotes, its output, and whether it runs Microsoft's compiler. The
/// places of those lines are given.
pub proof fn law_every_line_is_a_command(ls: Seq<Seq<char>>, n: nat) -> (order: Seq<int>)
    requires
        n <= ls.len(),
    ensures
        selects(order, n as int, |i: int| args_of(trim(ls[i])).len() > 0),
        steps_on(ls, n).len() == order.len(),
        forall|k: int|
            0 <= k < order.len() ==> {
                let step = #[trigger] steps_on(ls, n)[k];
                let args = args_of(trim(ls[order[k]]));
                &&& step.line == trim(ls[order[k]])
                &&& step.parts.len() == args.len()
                &&& forall|p: int| 0 <= p < args.len() ==> #[trigger] step.parts[p] == unquoted(args[p])
                &&& step.output == output_from(step.parts, 0)
                &&& step.is_compiler <==> ends_with(lowercase(unquoted(args[0])), "cl.exe"@)
            },
    decreases n,
{
    let wanted = |i: int| args_of(trim(ls[i])).len() > 0;
    if n == 0 {
        Seq::empty()
    } else {
        let before = law_every_line_is_a_command(ls, (n - 1) as nat);
        lemma_selects_more(before, n - 1, wanted);
        if wanted(n - 1) {
            before.push(n - 1)
        } else {
            before
        }
    }
}

/// A command that is not the compiler's is run as it is. The compiler is run from
/// its own path with the command's arguments, behind `wine` where Wine is wanted.
pub proof fn law_the_compiler_runs_with_the_commands_arguments(step: StepFacts, platform: Platform, exe: Seq<char>)
    requires
        step.parts.len() > 0,
    ensures
        ({
            let argv = command_line(step, platform, exe);
            let wine = step.is_compiler && platform == Platform::Linux;
            let at = if wine {
                1int
            } else {
                0
            };
            &&& wants_wine(step, platform) <==> wine
            &&& argv.len() == step.parts.len() + at
            &&& wine ==> argv[0] == "wine"@
            &&& step.is_compiler ==> argv[at] == exe
            &&& !step.is_compiler ==> argv[0] == step.parts[0]
            &&& forall|k: int| 1 <= k < step.parts.len() ==> argv[at + k] == #[trigger] step.parts[k]
        }),
{
}

} // verus!
