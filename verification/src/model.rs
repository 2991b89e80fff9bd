//! The project's configuration: compiler flags, libraries and the objects they
//! are made of, and the comments that its JSON files may hold.
use indexmap::IndexMap;
use vstd::prelude::*;

use crate::maps::{is_named, keys_of, lemma_lookup, lib_entries, lib_get, lib_retain};
use crate::order::{in_order, law_texts_in_order_ascend, sort_texts, text_before};
use crate::text::{find_from, first_of, join_texts, joined, opt_str, texts, to_chars};

verus! {

/// Where a configuration lists its libraries.
pub open spec fn objects_file(config_id: Seq<char>) -> Seq<char> {
    "config/"@ + config_id + "/objects.json"@
}

/// Where a configuration lists its libraries.
pub fn objects_path(config_id: &str) -> (r: String)
    ensures
        r@ == objects_file(config_id@),
{
    let mut s = String::from_str("config/");
    s.append(config_id);
    s.append("/objects.json");
    s
}

/// Where a configuration stands, unless another path is given.
pub open spec fn config_file(config_id: Seq<char>, override_path: Option<Seq<char>>) -> Seq<char> {
    match override_path {
        Some(path) => path,
        None => "config/"@ + config_id + "/config.json"@,
    }
}

/// Where a configuration stands, unless another path is given.
pub fn config_path(config_id: &str, override_path: Option<&str>) -> (r: String)
    ensures
        r@ == config_file(config_id@, opt_str(override_path)),
{
    match override_path {
        Some(path) => path.to_owned(),
        None => {
            let mut s = String::from_str("config/");
            s.append(config_id);
            s.append("/config.json");
            s
        },
    }
}

/// How far a block comment reaches in the text behind its opening: past the
/// first `*/`, or to the end where there is none.
pub open spec fn block_len(s: Seq<char>) -> nat
    decreases s.len(),
{
    if s.len() < 2 {
        s.len()
    } else if s[0] == '*' && s[1] == '/' {
        2
    } else {
        1 + block_len(s.skip(1))
    }
}

proof fn lemma_block_len(s: Seq<char>)
    ensures
        block_len(s) <= s.len(),
    decreases s.len(),
{
    if s.len() >= 2 && !(s[0] == '*' && s[1] == '/') {
        lemma_block_len(s.skip(1));
    }
}

/// Whether a line comment begins here.
pub open spec fn opens_line(s: Seq<char>) -> bool {
    s.len() >= 2 && s[0] == '/' && s[1] == '/'
}

/// Whether a block comment begins here.
pub open spec fn opens_block(s: Seq<char>) -> bool {
    s.len() >= 2 && s[0] == '/' && s[1] == '*'
}

/// The text without its comments. Within a string literal nothing is a comment,
/// and a backslash keeps the character behind it from ending the literal. A line
/// comment leaves the end of its line.
pub open spec fn uncommented(s: Seq<char>, in_string: bool) -> Seq<char>
    decreases s.len(),
    via uncommented_decreases
{
    if s.len() == 0 {
        Seq::empty()
    } else if in_string {
        if s[0] == '\\' {
            if s.len() == 1 {
                s
            } else {
                seq![s[0], s[1]] + uncommented(s.skip(2), true)
            }
        } else {
            seq![s[0]] + uncommented(s.skip(1), s[0] != '"')
        }
    } else if opens_line(s) {
        uncommented(s.skip(2).skip(first_of(s.skip(2), '\n')), false)
    } else if opens_block(s) {
        uncommented(s.skip(2).skip(block_len(s.skip(2)) as int), false)
    } else {
        seq![s[0]] + uncommented(s.skip(1), s[0] == '"')
    }
}

#[via_fn]
proof fn uncommented_decreases(s: Seq<char>, in_string: bool) {
    if s.len() >= 2 {
        crate::text::lemma_first_of(s.skip(2), '\n');
        lemma_block_len(s.skip(2));
    }
}

/// The position behind the block comment whose text begins at `from`.
fn block_end(v: &Vec<char>, from: usize) -> (i: usize)
    requires
        from <= v@.len(),
    ensures
        i == from + block_len(v@.skip(from as int)),
        i <= v@.len(),
{
    let n = v.len();
    let mut i: usize = from;
    while n - i >= 2 && !(v[i] == '*' && v[i + 1] == '/')
        invariant
            n == v@.len(),
            from <= i <= n,
            i - from + block_len(v@.skip(i as int)) == block_len(v@.skip(from as int)),
        decreases n - i,
    {
        assert(v@.skip(i as int).skip(1) =~= v@.skip(i + 1));
        i = i + 1;
    }
    if n - i >= 2 {
        i + 2
    } else {
        n
    }
}

/// Strips `/* */` block comments and `//` line comments outside of string
/// literals.
pub fn strip_json_comments(text: &str) -> (r: String)
    ensures
        r@ == uncommented(text@, false),
{
    let v = to_chars(text);
    let n = v.len();
    let mut out = String::new();
    let mut in_string = false;
    let mut i: usize = 0;
    assert(v@.skip(0) =~= v@);
    assert(out@ + uncommented(v@, false) =~= uncommented(v@, false));
    while i < n
        invariant
            i <= n,
            n == v@.len(),
            out@ + uncommented(v@.skip(i as int), in_string) == uncommented(v@, false),
        decreases n - i,
    {
        let c = v[i];
        let ghost here = v@.skip(i as int);
        let ghost before = out@;
        assert(here[0] == c);
        assert(here.skip(1) =~= v@.skip(i + 1));
        if i + 1 < n {
            assert(here[1] == v@[i + 1]);
            assert(here.skip(2) =~= v@.skip(i + 2));
        }
        if in_string {
            if c == '\\' {
                out.push(c);
                i = i + 1;
                if i < n {
                    out.push(v[i]);
                    i = i + 1;
                    assert(before + (seq![here[0], here[1]] + uncommented(here.skip(2), true)) =~= out@ + uncommented(
                        v@.skip(i as int),
                        true,
                    ));
                } else {
                    assert(v@.skip(i as int) =~= Seq::<char>::empty());
                    assert(here =~= seq![c]);
                    assert(uncommented(v@.skip(i as int), in_string) =~= Seq::<char>::empty());
                    assert(before + here =~= out@ + Seq::<char>::empty());
                }
            } else {
                out.push(c);
                in_string = c != '"';
                i = i + 1;
                assert(before + (seq![here[0]] + uncommented(here.skip(1), in_string)) =~= out@ + uncommented(
                    v@.skip(i as int),
                    in_string,
                ));
            }
        } else if c == '/' && n - i >= 2 && v[i + 1] == '/' {
            let end = find_from(&v, i + 2, '\n');
            assert(v@.skip(i + 2).skip(end - (i + 2)) =~= v@.skip(end as int));
            i = end;
        } else if c == '/' && n - i >= 2 && v[i + 1] == '*' {
            let end = block_end(&v, i + 2);
            assert(v@.skip(i + 2).skip(end - (i + 2)) =~= v@.skip(end as int));
            i = end;
        } else {
            out.push(c);
            in_string = c == '"';
            i = i + 1;
            assert(before + (seq![here[0]] + uncommented(here.skip(1), in_string)) =~= out@ + uncommented(
                v@.skip(i as int),
                in_string,
            ));
        }
    }
    assert(v@.skip(i as int) =~= Seq::<char>::empty());
    assert(out@ + Seq::<char>::empty() =~= out@);
    out
}

/// Text without a slash has no comments, and stays as it is.
pub proof fn law_text_without_slashes_is_kept(s: Seq<char>, in_string: bool)
    requires
        !s.contains('/'),
    ensures
        uncommented(s, in_string) == s,
    decreases s.len(),
{
    if s.len() > 0 {
        assert(s.contains(s[0]));
        let skip: int = if in_string && s[0] == '\\' && s.len() > 1 {
            2
        } else {
            1
        };
        let rest = s.skip(skip);
        assert(!rest.contains('/')) by {
            if rest.contains('/') {
                let k = choose|k: int| 0 <= k < rest.len() && rest[k] == '/';
                assert(s[k + skip] == '/');
            }
        }
        if skip == 2 {
            law_text_without_slashes_is_kept(rest, true);
            assert(seq![s[0], s[1]] + rest =~= s);
        } else {
            law_text_without_slashes_is_kept(rest, if in_string { s[0] != '"' } else { s[0] == '"' });
            assert(seq![s[0]] + rest =~= s);
        }
    }
}

/// A string literal is kept whole, slashes and all, and what stands behind it is
/// read as if it stood alone.
pub proof fn law_string_literals_are_kept(body: Seq<char>, rest: Seq<char>)
    requires
        !body.contains('"'),
        !body.contains('\\'),
    ensures
        uncommented(seq!['"'] + body + seq!['"'] + rest, false) == seq!['"'] + body + seq!['"'] + uncommented(
            rest,
            false,
        ),
{
    let s = seq!['"'] + body + seq!['"'] + rest;
    assert(s.skip(1) =~= body + seq!['"'] + rest);
    lemma_in_string(body, rest);
    assert(seq!['"'] + (body + seq!['"'] + uncommented(rest, false)) =~= seq!['"'] + body + seq!['"'] + uncommented(
        rest,
        false,
    ));
}

proof fn lemma_in_string(body: Seq<char>, rest: Seq<char>)
    requires
        !body.contains('"'),
        !body.contains('\\'),
    ensures
        uncommented(body + seq!['"'] + rest, true) == body + seq!['"'] + uncommented(rest, false),
    decreases body.len(),
{
    let s = body + seq!['"'] + rest;
    if body.len() == 0 {
        assert(s.skip(1) =~= rest);
        assert(seq!['"'] + uncommented(rest, false) =~= body + seq!['"'] + uncommented(rest, false));
    } else {
        assert(body.contains(body[0]));
        let tail = body.skip(1);
        assert forall|k: int| 0 <= k < tail.len() implies tail[k] != '"' && tail[k] != '\\' by {
            assert(body.contains(body[k + 1]));
        }
        lemma_in_string(tail, rest);
        assert(s.skip(1) =~= tail + seq!['"'] + rest);
        assert(s[0] == body[0]);
        assert(seq![body[0]] + (tail + seq!['"'] + uncommented(rest, false)) =~= body + seq!['"'] + uncommented(
            rest,
            false,
        ));
    }
}

/// A line comment vanishes up to the end of its line.
pub proof fn law_line_comments_vanish(body: Seq<char>, rest: Seq<char>)
    requires
        !body.contains('\n'),
    ensures
        uncommented(seq!['/', '/'] + body + seq!['\n'] + rest, false) == seq!['\n'] + uncommented(rest, false),
{
    let s = seq!['/', '/'] + body + seq!['\n'] + rest;
    let behind = body + seq!['\n'] + rest;
    assert(s.skip(2) =~= behind);
    assert forall|k: int| 0 <= k < body.len() implies behind[k] != '\n' by {
        assert(body.contains(body[k]));
    }
    crate::text::lemma_first_of_is(behind, '\n', body.len() as int);
    let left = seq!['\n'] + rest;
    assert(behind.skip(body.len() as int) =~= left);
    assert(left.skip(1) =~= rest);
    assert(opens_line(s));
    assert(uncommented(s, false) == uncommented(left, false));
    assert(!opens_line(left) && !opens_block(left));
    assert(uncommented(left, false) == seq!['\n'] + uncommented(left.skip(1), false));
}

/// A block comment vanishes.
pub proof fn law_block_comments_vanish(body: Seq<char>, rest: Seq<char>)
    requires
        forall|k: int| 0 <= k < body.len() - 1 ==> !(#[trigger] body[k] == '*' && body[k + 1] == '/'),
    ensures
        uncommented(seq!['/', '*'] + body + seq!['*', '/'] + rest, false) == uncommented(rest, false),
{
    let s = seq!['/', '*'] + body + seq!['*', '/'] + rest;
    let behind = body + seq!['*', '/'] + rest;
    assert(s.skip(2) =~= behind);
    lemma_block_len_is(body, rest);
    assert(behind.skip(body.len() as int + 2) =~= rest);
}

proof fn lemma_block_len_is(body: Seq<char>, rest: Seq<char>)
    requires
        forall|k: int| 0 <= k < body.len() - 1 ==> !(#[trigger] body[k] == '*' && body[k + 1] == '/'),
    ensures
        block_len(body + seq!['*', '/'] + rest) == body.len() + 2,
    decreases body.len(),
{
    let s = body + seq!['*', '/'] + rest;
    if body.len() > 0 {
        let tail = body.skip(1);
        assert(s.skip(1) =~= tail + seq!['*', '/'] + rest);
        assert forall|k: int| 0 <= k < tail.len() - 1 implies !(#[trigger] tail[k] == '*' && tail[k + 1] == '/') by {
            assert(tail[k] == body[k + 1]);
        }
        lemma_block_len_is(tail, rest);
        assert(s[0] == body[0]);
        if body.len() > 1 {
            assert(s[1] == body[1]);
        } else {
            assert(s[1] == '*');
        }
    }
}

/// Text whose comments are gone has none left.
pub proof fn law_comments_are_stripped_at_once(s: Seq<char>, in_string: bool)
    ensures
        uncommented(uncommented(s, in_string), in_string) == uncommented(s, in_string),
    decreases s.len(),
{
    let t = uncommented(s, in_string);
    if s.len() == 0 {
    } else if in_string {
        if s[0] == '\\' {
            if s.len() > 1 {
                law_comments_are_stripped_at_once(s.skip(2), true);
                assert(t.skip(2) =~= uncommented(s.skip(2), true));
            }
        } else {
            law_comments_are_stripped_at_once(s.skip(1), s[0] != '"');
            assert(t.skip(1) =~= uncommented(s.skip(1), s[0] != '"'));
        }
    } else if opens_line(s) {
        crate::text::lemma_first_of(s.skip(2), '\n');
        law_comments_are_stripped_at_once(s.skip(2).skip(first_of(s.skip(2), '\n')), false);
    } else if opens_block(s) {
        lemma_block_len(s.skip(2));
        law_comments_are_stripped_at_once(s.skip(2).skip(block_len(s.skip(2)) as int), false);
    } else {
        let rest = uncommented(s.skip(1), s[0] == '"');
        law_comments_are_stripped_at_once(s.skip(1), s[0] == '"');
        assert(t.skip(1) =~= rest);
        assert(t[0] == s[0]);
        if s[0] == '/' && s.len() > 1 {
            // What follows the slash opens no comment with it, and is no slash
            // itself, so it is the next character of the result.
            assert(s.skip(1)[0] == s[1]);
            assert(rest[0] == s[1]);
            assert(t[1] == s[1]);
        }
    }
}

/// A named set of compiler flags, and the set it builds on.
pub struct FlagSet {
    pub base: Option<String>,
    pub flags: Vec<String>,
}

/// The project's configuration.
pub struct Config {
    pub progress_categories: IndexMap<String, String>,
    pub compiler: String,
    pub compiler_c: Option<String>,
    pub compiler_root: String,
    pub sdk_root: String,
    pub cflags: IndexMap<String, FlagSet>,
    pub cxxflags: Option<IndexMap<String, FlagSet>>,
}

/// One library: its flags, where it is delinked from, and its objects.
pub struct LibEntry {
    pub progress_category: String,
    pub cflags: String,
    pub idapro: String,
    pub delink: Option<String>,
    pub binary: Option<String>,
    pub objects: IndexMap<String, Option<String>>,
}

/// The libraries by their names.
pub type Objects = IndexMap<String, LibEntry>;

/// The names that no library has.
pub open spec fn missing_names(entries: Seq<(Seq<char>, LibEntry)>, names: Seq<Seq<char>>) -> Seq<Seq<char>> {
    names.filter(|name: Seq<char>| !keys_of(entries).contains(name))
}

/// Whether `r` holds the texts of `s` in order.
pub open spec fn is_sorting(s: Seq<Seq<char>>, r: Seq<Seq<char>>) -> bool {
    in_order(r) && r.to_multiset() == s.to_multiset()
}

/// What is said of names that no library has.
pub open spec fn missing_warning(missing: Seq<Seq<char>>) -> Seq<char> {
    "--only names not in objects.json: "@ + joined(missing, ", "@)
}

/// Whether `warning` names what is missing, if anything is.
pub open spec fn warns_of(missing: Seq<Seq<char>>, warning: Option<Seq<char>>) -> bool {
    if missing.len() == 0 {
        warning is None
    } else {
        exists|sorted: Seq<Seq<char>>|
            #[trigger] is_sorting(missing, sorted) && warning == Some(missing_warning(sorted))
    }
}

/// Keeps just the named libraries, all of them where no name is given. The
/// warning names, in order, those that are not among the libraries.
pub fn filter_only(objects: Objects, only: &Vec<String>) -> (r: (Objects, Option<String>))
    ensures
        only@.len() == 0 ==> r.0 == objects && r.1 is None,
        only@.len() > 0 ==> {
            &&& lib_entries(r.0) == lib_entries(objects).filter(
                |entry: (Seq<char>, LibEntry)| is_named(entry, only@),
            )
            &&& warns_of(missing_names(lib_entries(objects), texts(only@)), crate::text::opt_text(r.1))
        },
{
    if only.len() == 0 {
        return (objects, None);
    }
    let mut objects = objects;
    let ghost entries = lib_entries(objects);
    let ghost all = texts(only@);
    let ghost absent = |name: Seq<char>| !keys_of(entries).contains(name);
    let mut missing: Vec<String> = Vec::new();
    let n = only.len();
    let mut i: usize = 0;
    proof {
        assert(all.take(0) =~= Seq::empty());
        reveal(Seq::filter);
        assert(texts(missing@) =~= Seq::empty());
    }
    while i < n
        invariant
            i <= n,
            n == only@.len(),
            all == texts(only@),
            entries == lib_entries(objects),
            absent == (|name: Seq<char>| !keys_of(entries).contains(name)),
            texts(missing@) == all.take(i as int).filter(absent),
        decreases n - i,
    {
        let name = only[i].as_str();
        let ghost was = texts(missing@);
        proof {
            lemma_lookup(entries, name@);
            assert(all[i as int] == name@);
            assert(all.take(i + 1).drop_last() =~= all.take(i as int));
            assert(all.take(i + 1).last() == name@);
            reveal(Seq::filter);
        }
        if lib_get(&objects, name).is_none() {
            missing.push(name.to_owned());
            assert(texts(missing@) =~= was.push(name@));
        }
        i = i + 1;
    }
    assert(all.take(n as int) =~= all);
    lib_retain(&mut objects, only);
    if missing.len() == 0 {
        assert(texts(missing@).len() == 0);
        return (objects, None);
    }
    let sorted = sort_texts(&missing);
    let mut warning = String::from_str("--only names not in objects.json: ");
    warning.append(join_texts(&sorted, ", ").as_str());
    proof {
        assert(texts(missing@).len() > 0);
        assert(is_sorting(texts(missing@), texts(sorted@)));
    }
    (objects, Some(warning))
}

/// A string literal goes from a double quote to the next, and every character of
/// it is kept; within it a backslash keeps what is behind it, a quote too, and the
/// literal goes on.
pub proof fn law_a_string_literal_is_kept_to_its_end(c: char, rest: Seq<char>)
    ensures
        uncommented(seq!['"'] + rest, false) == seq!['"'] + uncommented(rest, true),
        uncommented(seq!['"'] + rest, true) == seq!['"'] + uncommented(rest, false),
        c != '"' && c != '\\' ==> uncommented(seq![c] + rest, true) == seq![c] + uncommented(rest, true),
        uncommented(seq!['\\', c] + rest, true) == seq!['\\', c] + uncommented(rest, true),
        uncommented(Seq::empty(), true) == Seq::<char>::empty(),
{
    assert((seq!['\\', c] + rest).skip(2) =~= rest);
    assert((seq!['"'] + rest).skip(1) =~= rest);
    assert((seq![c] + rest).skip(1) =~= rest);
}

/// A comment that nothing ends reaches to the end of the text.
pub proof fn law_an_open_comment_reaches_to_the_end(body: Seq<char>)
    ensures
        !body.contains('\n') ==> uncommented(seq!['/', '/'] + body, false) == Seq::<char>::empty(),
        (forall|k: int| 0 <= k < body.len() - 1 ==> !(#[trigger] body[k] == '*' && body[k + 1] == '/'))
            ==> uncommented(seq!['/', '*'] + body, false) == Seq::<char>::empty(),
{
    let a = seq!['/', '/'] + body;
    let b = seq!['/', '*'] + body;
    assert(a.skip(2) =~= body);
    assert(b.skip(2) =~= body);
    let none = Seq::<char>::empty();
    assert(uncommented(none, false) == none);
    if !body.contains('\n') {
        crate::text::lemma_first_of(body, '\n');
        assert(opens_line(a));
        assert(body.skip(body.len() as int) =~= none);
        assert(uncommented(a, false) == uncommented(none, false));
    }
    if forall|k: int| 0 <= k < body.len() - 1 ==> !(#[trigger] body[k] == '*' && body[k + 1] == '/') {
        lemma_open_block(body);
        assert(opens_block(b) && !opens_line(b));
        assert(body.skip(body.len() as int) =~= none);
        assert(uncommented(b, false) == uncommented(none, false));
    }
}

proof fn lemma_open_block(body: Seq<char>)
    requires
        forall|k: int| 0 <= k < body.len() - 1 ==> !(#[trigger] body[k] == '*' && body[k + 1] == '/'),
    ensures
        block_len(body) == body.len(),
    decreases body.len(),
{
    if body.len() >= 2 {
        let tail = body.skip(1);
        assert forall|k: int| 0 <= k < tail.len() - 1 implies !(#[trigger] tail[k] == '*' && tail[k + 1] == '/') by {
            assert(tail[k] == body[k + 1]);
        }
        lemma_open_block(tail);
    }
}

/// Outside strings and comments every character is kept: one that is no slash
/// and no quote, and a slash that opens no comment with what is behind it.
pub proof fn law_other_characters_are_kept(c: char, rest: Seq<char>)
    requires
        c != '"',
        c == '/' ==> rest.len() == 0 || (rest[0] != '/' && rest[0] != '*'),
    ensures
        uncommented(seq![c] + rest, false) == seq![c] + uncommented(rest, false),
{
    let s = seq![c] + rest;
    assert(s.skip(1) =~= rest);
    if s.len() >= 2 {
        assert(s[1] == rest[0]);
    }
}

/// Of the libraries just the named ones are kept, in their order; and a name is
/// missing just where no library has it.
pub proof fn law_named_libraries_are_kept(
    entries: Seq<(Seq<char>, LibEntry)>,
    names: Seq<String>,
    name: Seq<char>,
    lib: LibEntry,
)
    ensures
        entries.push((name, lib)).filter(|e: (Seq<char>, LibEntry)| is_named(e, names)) == if texts(names).contains(
            name,
        ) {
            entries.filter(|e: (Seq<char>, LibEntry)| is_named(e, names)).push((name, lib))
        } else {
            entries.filter(|e: (Seq<char>, LibEntry)| is_named(e, names))
        },
        texts(names).contains(name) && (forall|i: int| 0 <= i < entries.len() ==> (#[trigger] entries[i]).0 != name)
            <==> missing_names(entries, texts(names)).contains(name),
{
    reveal(Seq::filter);
    assert(entries.push((name, lib)).drop_last() =~= entries);
    let all = texts(names);
    let keys = keys_of(entries);
    let absent = |n: Seq<char>| !keys.contains(n);
    let missing = missing_names(entries, all);
    if missing.contains(name) {
        all.lemma_filter_contains_rev(absent, name);
        assert forall|i: int| 0 <= i < entries.len() implies (#[trigger] entries[i]).0 != name by {
            assert(keys[i] == entries[i].0);
        }
    }
    if all.contains(name) && (forall|i: int| 0 <= i < entries.len() ==> (#[trigger] entries[i]).0 != name) {
        assert(!keys.contains(name)) by {
            if keys.contains(name) {
                let k = choose|k: int| 0 <= k < keys.len() && keys[k] == name;
                assert(entries[k].0 == name);
            }
        }
        let e = choose|e: int| 0 <= e < all.len() && all[e] == name;
        all.lemma_filter_contains(absent, e);
    }
}

/// The warning names just what is missing, each as often as it was given, in
/// ascending order; there is none where nothing is missing.
pub proof fn law_the_warning_names_what_is_missing(missing: Seq<Seq<char>>, warning: Option<Seq<char>>) -> (sorted: Seq<
    Seq<char>,
>)
    requires
        warns_of(missing, warning),
    ensures
        missing.len() == 0 <==> warning is None,
        missing.len() > 0 ==> {
            &&& sorted.to_multiset() == missing.to_multiset()
            &&& forall|i: int, j: int|
                #![trigger sorted[i], sorted[j]]
                0 <= i < j < sorted.len() ==> sorted[i] == sorted[j] || text_before(sorted[i], sorted[j])
            &&& warning == Some("--only names not in objects.json: "@ + joined(sorted, ", "@))
        },
{
    if missing.len() > 0 {
        let sorted = choose|sorted: Seq<Seq<char>>|
            #[trigger] is_sorting(missing, sorted) && warning == Some(missing_warning(sorted));
        assert forall|i: int, j: int| #![trigger sorted[i], sorted[j]] 0 <= i < j < sorted.len() implies sorted[i]
            == sorted[j] || text_before(sorted[i], sorted[j]) by {
            law_texts_in_order_ascend(sorted, i, j);
        }
        sorted
    } else {
        missing
    }
}

} // verus!
