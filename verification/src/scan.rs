//! What a source pulls in: its language, its local includes, and the scan that
//! follows them.
use vstd::prelude::*;

use crate::codegen::{forward, to_forward_path};
use crate::order::{
    is_before, lemma_selects_more, lemma_text_order_irreflexive, lemma_text_order_total, lemma_text_order_transitive,
    selects, text_before,
};
use crate::text::{
    begins_with, find_from, first_of, is_white_space, last_of, lemma_first_of_is, lemma_last_of, lemma_rest_begins_with,
    lemma_trim_start_white, lines, opt_str, opt_text, same_text, skip_white, slice_text, stands_here, text_lines, texts,
    to_chars, trim_start,
};

verus! {

/// The extension of a file name: what stands behind its last dot, where that is
/// not its first character.
pub open spec fn extension_of(name: Seq<char>) -> Option<Seq<char>> {
    if last_of(name, '.') <= 0 {
        None
    } else {
        Some(name.skip(last_of(name, '.') + 1))
    }
}

/// A path without the slashes it ends in, and without the dots that stand alone
/// behind them: these name nothing.
pub open spec fn bare_path(path: Seq<char>) -> Seq<char>
    decreases path.len(),
{
    let n = path.len() as int;
    if n >= 1 && path[n - 1] == '/' {
        bare_path(path.drop_last())
    } else if n >= 2 && path[n - 1] == '.' && path[n - 2] == '/' {
        bare_path(path.drop_last())
    } else {
        path
    }
}

/// What stands behind the last slash of a path.
pub open spec fn slash_part(path: Seq<char>) -> Seq<char> {
    let bare = bare_path(path);
    bare.skip(last_of(bare, '/') + 1)
}

/// What stands behind the last slash or backslash of a path.
pub open spec fn name_part(path: Seq<char>) -> Seq<char> {
    let name = slash_part(path);
    name.skip(last_of(name, '\\') + 1)
}

/// The extension of the name that a path ends in; a path that ends in `..` has no
/// name.
pub open spec fn path_ext(path: Seq<char>) -> Option<Seq<char>> {
    if name_part(path) == ".."@ {
        None
    } else {
        extension_of(name_part(path))
    }
}

/// Whether a character parts a path on some platform.
pub open spec fn is_separator(c: char) -> bool {
    c == '/' || c == '\\'
}

/// Whether a path has one extension, or none, on every platform: it does not begin
/// as a network name does or end in a drive, and a backslash in its name, taken as
/// a separator or as a character, makes no difference to the extension.
pub open spec fn is_simple_path(path: Seq<char>) -> bool {
    let name = name_part(path);
    &&& !(path.len() >= 2 && is_separator(path[0]) && is_separator(path[1]))
    &&& !name.contains(':')
    &&& slash_part(path) == name || {
        &&& name.len() > 0
        &&& name != "."@
        &&& name != ".."@
        &&& extension_of(slash_part(path)) == extension_of(name)
    }
}

/// `std::path::Path::extension` gives the extension of a path's file name, and
/// none where it has no file name: where it is empty, a root, or ends in `..`. A
/// slash at the end of a path, and a dot behind one, are passed over. What the
/// file name is depends on the platform's separators and prefixes, so this is said
/// only of paths that have one extension everywhere; an extension never holds a
/// dot.
#[verifier::external_body]
fn path_extension(path: &str) -> (r: Option<String>)
    ensures
        is_simple_path(path@) ==> opt_text(r) == path_ext(path@),
        r is Some ==> !r->0@.contains('.'),
{
    std::path::Path::new(path).extension().map(|e| e.to_string_lossy().into_owned())
}

/// Whether an extension is that of C, in either case.
pub open spec fn is_c(extension: Option<Seq<char>>) -> bool {
    extension == Some("c"@) || extension == Some("C"@)
}

/// Whether an extension is that of C, in either case.
pub fn is_c_extension(extension: Option<&str>) -> (r: bool)
    ensures
        r == is_c(opt_str(extension)),
{
    match extension {
        Some(e) => same_text(e, "c") || same_text(e, "C"),
        None => false,
    }
}

/// Whether a source is C by its extension. What a path has that has not one
/// extension on every platform is left to the platform.
pub fn is_c_source(src: &str) -> (r: bool)
    ensures
        is_simple_path(src@) ==> r == is_c(path_ext(src@)),
{
    match path_extension(src) {
        Some(e) => is_c_extension(Some(e.as_str())),
        None => false,
    }
}

/// What a line includes by a local `#include "..."`: whitespace may stand before
/// and after the `#` and before the quoted path.
pub open spec fn local_include(line: Seq<char>) -> Option<Seq<char>> {
    let at = trim_start(line);
    if !begins_with(at, "#"@) {
        None
    } else {
        let word = trim_start(at.skip(1));
        if !begins_with(word, "include"@) {
            None
        } else {
            let quote = trim_start(word.skip(7));
            if !begins_with(quote, "\""@) {
                None
            } else {
                let path = quote.skip(1);
                if first_of(path, '"') == path.len() {
                    None
                } else {
                    Some(path.take(first_of(path, '"')))
                }
            }
        }
    }
}

/// Parses a single line for a local `#include "..."` directive, returning the
/// quoted path. Returns None for `#include <...>` (angle brackets) and for
/// commented lines like `// #include "x"` (which don't start with `#`).
pub fn parse_local_include(line: &str) -> (r: Option<String>)
    ensures
        opt_text(r) == local_include(line@),
{
    proof {
        reveal_strlit("#");
        reveal_strlit("include");
        reveal_strlit("\"");
    }
    let v = to_chars(line);
    let n = v.len();
    assert(v@.skip(0) =~= v@);
    let at = skip_white(&v, 0);
    let hash = to_chars("#");
    let ghost rest = v@.skip(at as int);
    proof {
        lemma_rest_begins_with(v@, at as int, "#"@);
    }
    if !stands_here(&v, at, &hash) {
        return None;
    }
    assert(rest.skip(1) =~= v@.skip(at + 1));
    let word = skip_white(&v, at + 1);
    let directive = to_chars("include");
    let ghost rest = v@.skip(word as int);
    proof {
        lemma_rest_begins_with(v@, word as int, "include"@);
    }
    if !stands_here(&v, word, &directive) {
        return None;
    }
    assert(rest.skip(7) =~= v@.skip(word + 7));
    let quote = skip_white(&v, word + 7);
    let mark = to_chars("\"");
    let ghost rest = v@.skip(quote as int);
    proof {
        lemma_rest_begins_with(v@, quote as int, "\""@);
    }
    if !stands_here(&v, quote, &mark) {
        return None;
    }
    assert(rest.skip(1) =~= v@.skip(quote + 1));
    let end = find_from(&v, quote + 1, '"');
    if end == n {
        return None;
    }
    let path = slice_text(&v, quote + 1, end);
    assert(path@ =~= v@.skip(quote + 1).take(end - (quote + 1)));
    Some(path)
}

/// What the first `n` lines pull in.
pub open spec fn includes_of(ls: Seq<Seq<char>>, n: nat) -> Seq<Seq<char>>
    decreases n,
{
    if n == 0 || n > ls.len() {
        Seq::empty()
    } else {
        match local_include(ls[n - 1]) {
            Some(path) => includes_of(ls, (n - 1) as nat).push(path),
            None => includes_of(ls, (n - 1) as nat),
        }
    }
}

/// The paths that a file pulls in by local includes, line by line.
pub fn local_includes(text: &str) -> (r: Vec<String>)
    ensures
        texts(r@) == includes_of(lines(text@), lines(text@).len()),
{
    let ls = text_lines(text);
    let ghost all = lines(text@);
    let n = ls.len();
    let mut out: Vec<String> = Vec::new();
    let mut i: usize = 0;
    assert(texts(out@) =~= Seq::empty());
    assert(all.len() == n);
    while i < n
        invariant
            i <= n,
            n == ls@.len(),
            n == all.len(),
            all == texts(ls@),
            texts(out@) == includes_of(all, i as nat),
        decreases n - i,
    {
        assert(all[i as int] == ls@[i as int]@);
        if let Some(path) = parse_local_include(ls[i].as_str()) {
            let ghost before = texts(out@);
            let ghost p = path@;
            out.push(path);
            assert(texts(out@) =~= before.push(p));
        }
        i = i + 1;
    }
    out
}

/// One component of a path.
pub enum PathPart {
    /// What stands before the root on platforms that have such a thing.
    Prefix(String),
    RootDir,
    CurDir,
    ParentDir,
    Normal(String),
}

/// A path without what its last component names. A root and a prefix stay.
pub open spec fn parent(path: Seq<PathPart>) -> Seq<PathPart> {
    if path.len() == 0 || path.last() is RootDir || path.last() is Prefix {
        path
    } else {
        path.drop_last()
    }
}

/// A path with a component behind it. A prefix replaces the path, and a root
/// all of it but a prefix.
pub open spec fn pushed(path: Seq<PathPart>, part: PathPart) -> Seq<PathPart> {
    match part {
        PathPart::Prefix(_) => seq![part],
        PathPart::RootDir => if path.len() > 0 && path[0] is Prefix {
            seq![path[0], part]
        } else {
            seq![part]
        },
        _ => path.push(part),
    }
}

/// Where one component leads from a path.
pub open spec fn stepped(path: Seq<PathPart>, part: PathPart) -> Seq<PathPart> {
    match part {
        PathPart::CurDir => path,
        PathPart::ParentDir => parent(path),
        _ => pushed(path, part),
    }
}

/// Where the first `n` components lead from a path, `.` and `..` collapsed.
pub open spec fn walked(path: Seq<PathPart>, parts: Seq<PathPart>, n: nat) -> Seq<PathPart>
    decreases n,
{
    if n == 0 || n > parts.len() {
        path
    } else {
        stepped(walked(path, parts, (n - 1) as nat), parts[n - 1])
    }
}

/// The path `n` levels up.
pub open spec fn up(path: Seq<PathPart>, n: nat) -> Seq<PathPart>
    decreases n,
{
    if n == 0 {
        path
    } else {
        parent(up(path, (n - 1) as nat))
    }
}

/// A path with the components of a list behind it.
pub open spec fn pushed_all(path: Seq<PathPart>, parts: Seq<PathPart>) -> Seq<PathPart>
    decreases parts.len(),
{
    if parts.len() == 0 {
        path
    } else {
        pushed(pushed_all(path, parts.drop_last()), parts.last())
    }
}

/// A relative path with `.` and `..` collapsed: how many levels it goes up, and
/// the components it then goes down.
pub struct Collapsed {
    pub up: usize,
    pub down: Vec<PathPart>,
}

impl Collapsed {
    /// Where the path leads from another.
    pub open spec fn from(self, path: Seq<PathPart>) -> Seq<PathPart> {
        pushed_all(up(path, self.up as nat), self.down@)
    }
}

/// Whether no component of a list goes up or stays.
pub open spec fn goes_down(parts: Seq<PathPart>) -> bool {
    forall|i: int| 0 <= i < parts.len() ==> !(#[trigger] parts[i] is ParentDir) && !(parts[i] is CurDir)
}

proof fn lemma_parent_of_pushed(path: Seq<PathPart>, parts: Seq<PathPart>)
    requires
        goes_down(parts),
        parts.len() > 0,
    ensures
        parts.last() is Normal ==> parent(pushed_all(path, parts)) == pushed_all(path, parts.drop_last()),
        !(parts.last() is Normal) ==> parent(pushed_all(path, parts)) == pushed_all(path, parts),
{
    let last = parts.last();
    assert(last == parts[parts.len() - 1]);
    let before = pushed_all(path, parts.drop_last());
    if last is Normal {
        assert(before.push(last).drop_last() =~= before);
    }
}

/// Collapses the `.` and `..` of a path lexically. Joined onto any path, what is
/// left leads where the components lead one by one.
pub fn collapse(parts: Vec<PathPart>) -> (r: Collapsed)
    ensures
        r.up <= parts@.len(),
        goes_down(r.down@),
        forall|path: Seq<PathPart>| #[trigger] r.from(path) == walked(path, parts@, parts@.len()),
{
    let ghost all = parts@;
    let mut left = parts;
    let n = left.len();
    let mut r = Collapsed { up: 0, down: Vec::new() };
    let mut i: usize = 0;
    left = reversed(left);
    while i < n
        invariant
            i <= n,
            n == all.len(),
            left@.len() == n - i,
            forall|j: int| 0 <= j < n - i ==> #[trigger] left@[j] == all[n - 1 - j],
            r.up <= i,
            goes_down(r.down@),
            forall|path: Seq<PathPart>| #[trigger] r.from(path) == walked(path, all, i as nat),
        decreases n - i,
    {
        let ghost before = r;
        if let Some(part) = left.pop() {
            assert(part == all[i as int]);
            match part {
                PathPart::CurDir => {},
                PathPart::ParentDir => {
                    let m = r.down.len();
                    if m == 0 {
                        r.up = r.up + 1;
                    } else {
                        let goes_back = match r.down[m - 1] {
                            PathPart::Normal(_) => true,
                            _ => false,
                        };
                        if goes_back {
                            r.down.pop();
                        }
                        proof {
                            assert forall|path: Seq<PathPart>| #[trigger] r.from(path) == parent(before.from(path)) by {
                                lemma_parent_of_pushed(up(path, before.up as nat), before.down@);
                                if goes_back {
                                    assert(r.down@ =~= before.down@.drop_last());
                                }
                            }
                        }
                    }
                },
                _ => {
                    r.down.push(part);
                    proof {
                        assert(r.down@.drop_last() =~= before.down@);
                        assert forall|path: Seq<PathPart>| #[trigger] r.from(path) == pushed(before.from(path), part) by {
                            assert(r.down@.last() == part);
                        }
                    }
                },
            }
            proof {
                assert forall|path: Seq<PathPart>| #[trigger] r.from(path) == walked(path, all, (i + 1) as nat) by {
                    assert(before.from(path) == walked(path, all, i as nat));
                }
            }
        }
        i = i + 1;
    }
    r
}

fn reversed(v: Vec<PathPart>) -> (r: Vec<PathPart>)
    ensures
        r@.len() == v@.len(),
        forall|j: int| 0 <= j < v@.len() ==> #[trigger] r@[j] == v@[v@.len() - 1 - j],
{
    let ghost all = v@;
    let n = v.len();
    let mut v = v;
    let mut r: Vec<PathPart> = Vec::new();
    while r.len() < n
        invariant
            n == all.len(),
            r@.len() <= n,
            v@.len() == n - r@.len(),
            forall|j: int| 0 <= j < v@.len() ==> #[trigger] v@[j] == all[j],
            forall|j: int| 0 <= j < r@.len() ==> #[trigger] r@[j] == all[n - 1 - j],
        decreases n - r@.len(),
    {
        if let Some(part) = v.pop() {
            r.push(part);
        }
    }
    r
}

/// Whether each text of a list stands before the next, so that none is there
/// twice.
pub open spec fn is_ascending(s: Seq<Seq<char>>) -> bool {
    forall|i: int, j: int| #![trigger s[i], s[j]] 0 <= i < j < s.len() ==> text_before(s[i], s[j])
}

/// A scan that follows local includes from an entrypoint, depth first. Files are
/// known by their forward-slash paths; each is handed out to be read once.
pub struct IncludeScan {
    /// The forward-slash path of the entrypoint.
    pub entry: String,
    /// The files handed out, in order.
    pub visited: Vec<String>,
    /// The files that were found and wait for their turn, the next one last. One
    /// that was handed out meanwhile is passed over.
    pub pending: Vec<String>,
    /// Which file was found to pull in which.
    pub edges: Ghost<Set<(Seq<char>, Seq<char>)>>,
}

/// Whether each file of a route pulls in the next.
pub open spec fn is_route(pulls: spec_fn((Seq<char>, Seq<char>)) -> bool, route: Seq<Seq<char>>) -> bool {
    &&& route.len() > 0
    &&& forall|i: int| 0 <= i < route.len() - 1 ==> #[trigger] leads(pulls, route, i)
}

/// Whether the file at a place of a route pulls in the next.
pub open spec fn leads(pulls: spec_fn((Seq<char>, Seq<char>)) -> bool, route: Seq<Seq<char>>, i: int) -> bool {
    pulls((route[i], route[i + 1]))
}

/// Whether a file is pulled in by another, directly, by way of others, or as that
/// file itself.
pub open spec fn reaches(pulls: spec_fn((Seq<char>, Seq<char>)) -> bool, from: Seq<char>, file: Seq<char>) -> bool {
    exists|route: Seq<Seq<char>>| #[trigger] is_route(pulls, route) && route[0] == from && route.last() == file
}

/// What the edges of a set say.
pub open spec fn by_edges(edges: Set<(Seq<char>, Seq<char>)>) -> spec_fn((Seq<char>, Seq<char>)) -> bool {
    |e: (Seq<char>, Seq<char>)| edges.contains(e)
}

/// The last of the first `n` waiting files that was not handed out yet, or -1.
pub open spec fn next_at(pending: Seq<Seq<char>>, seen: Set<Seq<char>>, n: int) -> int
    decreases n,
{
    if n <= 0 {
        -1
    } else if !seen.contains(forward(pending[n - 1])) {
        n - 1
    } else {
        next_at(pending, seen, n - 1)
    }
}

/// The files that paths were resolved to, the first last.
pub open spec fn stacked(files: Seq<Option<Seq<char>>>) -> Seq<Seq<char>>
    decreases files.len(),
{
    if files.len() == 0 {
        Seq::empty()
    } else {
        let first = stacked(files.drop_last());
        match files.last() {
            Some(file) => seq![file] + first,
            None => first,
        }
    }
}

impl IncludeScan {
    /// The files handed out.
    pub open spec fn seen(self) -> Set<Seq<char>> {
        texts(self.visited@).to_set()
    }

    /// The file that waits at a place.
    pub open spec fn waits_at(self, i: int) -> Seq<char> {
        forward(self.pending@[i]@)
    }

    /// Whether a file waits for its turn.
    pub open spec fn is_waiting(self, file: Seq<char>) -> bool {
        exists|i: int| 0 <= i < self.pending@.len() && #[trigger] self.waits_at(i) == file
    }

    /// What holds at every step: the entrypoint, and what the files handed out pull
    /// in, was handed out or waits; and whatever was or does, the entrypoint pulls
    /// in.
    #[verifier::opaque]
    pub open spec fn wf(self) -> bool {
        &&& is_ascending(texts(self.visited@))
        &&& self.seen().contains(self.entry@) || self.is_waiting(self.entry@)
        &&& forall|e: (Seq<char>, Seq<char>)| #[trigger]
            self.edges@.contains(e) ==> self.seen().contains(e.0) && (self.seen().contains(e.1) || self.is_waiting(e.1))
        &&& forall|file: Seq<char>| #[trigger]
            self.seen().contains(file) ==> reaches(by_edges(self.edges@), self.entry@, file)
        &&& forall|i: int|
            0 <= i < self.pending@.len() ==> reaches(by_edges(self.edges@), self.entry@, #[trigger] self.waits_at(i))
    }

    /// Starts at an entrypoint, which waits.
    pub fn new(entrypoint: &str) -> (r: IncludeScan)
        ensures
            r.wf(),
            r.entry@ == forward(entrypoint@),
            r.seen() == Set::<Seq<char>>::empty(),
            texts(r.pending@) == seq![entrypoint@],
            r.edges@ == Set::<(Seq<char>, Seq<char>)>::empty(),
    {
        let entry = to_forward_path(entrypoint);
        let mut pending: Vec<String> = Vec::new();
        pending.push(entrypoint.to_owned());
        let r = IncludeScan { entry, visited: Vec::new(), pending, edges: Ghost(Set::empty()) };
        proof {
            reveal(IncludeScan::wf);
            let key = forward(entrypoint@);
            assert(texts(r.visited@) =~= Seq::empty());
            assert(r.seen() =~= Set::empty());
            assert(texts(r.pending@) =~= seq![entrypoint@]);
            assert(r.waits_at(0) == key);
            let alone = seq![key];
            assert(is_route(by_edges(r.edges@), alone));
            assert(alone[0] == key && alone.last() == key);
        }
        r
    }

    /// Hands out the next file, to be read; none where every one that was found
    /// was. No file is handed out twice.
    pub fn next_file(&mut self) -> (r: Option<String>)
        requires
            old(self).wf(),
        ensures
            final(self).wf(),
            final(self).entry == old(self).entry,
            final(self).edges == old(self).edges,
            ({
                let k = next_at(texts(old(self).pending@), old(self).seen(), old(self).pending@.len() as int);
                match r {
                    Some(path) => {
                        &&& k >= 0
                        &&& path@ == old(self).pending@[k]@
                        &&& final(self).pending@ == old(self).pending@.take(k)
                        &&& !old(self).seen().contains(forward(path@))
                        &&& final(self).seen() == old(self).seen().insert(forward(path@))
                    },
                    None => {
                        &&& k < 0
                        &&& final(self).pending@.len() == 0
                        &&& final(self).visited == old(self).visited
                    },
                }
            }),
    {
        let ghost start = *self;
        let ghost all = texts(self.pending@);
        let ghost n = all.len() as int;
        while self.pending.len() > 0
            invariant
                self.wf(),
                start == *old(self),
                self.entry == start.entry,
                self.edges == start.edges,
                self.visited == start.visited,
                all == texts(start.pending@),
                n == all.len(),
                self.pending@.len() <= n,
                self.pending@ == start.pending@.take(self.pending@.len() as int),
                next_at(all, start.seen(), n) == next_at(all, start.seen(), self.pending@.len() as int),
            decreases self.pending@.len(),
        {
            let ghost before = *self;
            let ghost k = before.pending@.len() - 1;
            if let Some(path) = self.pending.pop() {
                assert(self.pending@ =~= start.pending@.take(k));
                assert(all[k] == path@);
                let key = to_forward_path(path.as_str());
                assert(before.waits_at(k) == key@);
                let ghost popped = *self;
                proof {
                    lemma_ascending(before);
                }
                let (at, known) = self.place(key.as_str());
                if known {
                    proof {
                        lemma_passed_over(before, popped);
                    }
                } else {
                    let ghost name = key@;
                    self.visited.insert(at, key);
                    proof {
                        lemma_inserted(texts(before.visited@), at as int, name);
                        assert(texts(self.visited@) =~= texts(before.visited@).insert(at as int, name));
                        assert(self.seen() == before.seen().insert(name));
                        lemma_handed_out(before, *self);
                    }
                    return Some(path);
                }
            }
        }
        None
    }

    /// Where a file stands among those handed out, or would, and whether it does.
    fn place(&self, key: &str) -> (r: (usize, bool))
        requires
            is_ascending(texts(self.visited@)),
        ensures
            r.0 <= self.visited@.len(),
            r.1 == self.seen().contains(key@),
            !r.1 ==> is_place(texts(self.visited@), r.0 as int, key@),
    {
        let ghost keys = texts(self.visited@);
        let n = self.visited.len();
        let mut i: usize = 0;
        while i < n && is_before(self.visited[i].as_str(), key)
            invariant
                i <= n,
                n == self.visited@.len(),
                keys == texts(self.visited@),
                keys.len() == n,
                forall|j: int| 0 <= j < i ==> text_before(#[trigger] keys[j], key@),
            decreases n - i,
        {
            assert(keys[i as int] == self.visited@[i as int]@);
            i = i + 1;
        }
        if i < n {
            assert(keys[i as int] == self.visited@[i as int]@);
        }
        if i < n && same_text(self.visited[i].as_str(), key) {
            assert(keys.contains(key@));
            return (i, true);
        }
        proof {
            if i < n {
                lemma_text_order_total(keys[i as int], key@);
            }
            assert forall|j: int| i <= j < n implies text_before(key@, #[trigger] keys[j]) by {
                if j > i {
                    lemma_text_order_transitive(key@, keys[i as int], keys[j]);
                }
            }
            if keys.contains(key@) {
                let j = choose|j: int| 0 <= j < keys.len() && keys[j] == key@;
                lemma_text_order_irreflexive(key@);
            }
        }
        (i, false)
    }

    /// Takes up what a file that was handed out pulls in: of each path that its
    /// text names in a local include, the file that this is, where there is one.
    /// The first of them is next, and they all come before what waited already.
    pub fn scan_text<F: Fn(&str) -> Option<String>>(&mut self, from: &str, text: &str, resolve: F)
        requires
            old(self).wf(),
            old(self).seen().contains(forward(from@)),
            forall|path: &str| call_requires(resolve, (path,)),
        ensures
            final(self).wf(),
            final(self).entry == old(self).entry,
            final(self).visited == old(self).visited,
            exists|files: Seq<Option<Seq<char>>>|
                {
                    &&& #[trigger] are_resolved(resolve, includes_of(lines(text@), lines(text@).len()), files)
                    &&& files.len() == includes_of(lines(text@), lines(text@).len()).len()
                    &&& final(self).edges@ == old(self).edges@.union(edges_to(forward(from@), files))
                    &&& texts(final(self).pending@) == texts(old(self).pending@) + stacked(files)
                },
    {
        let ghost start = *self;
        let paths = local_includes(text);
        let ghost named = texts(paths@);
        let ghost mut files: Seq<Option<Seq<char>>> = Seq::empty();
        let mut found: Vec<Option<String>> = Vec::new();
        let n = paths.len();
        let mut i: usize = 0;
        assert(named.len() == n);
        while i < n
            invariant
                i <= n,
                n == paths@.len(),
                n == named.len(),
                named == texts(paths@),
                forall|path: &str| call_requires(resolve, (path,)),
                files.len() == i,
                found@.len() == i,
                forall|j: int| 0 <= j < i ==> opt_text(#[trigger] found@[j]) == files[j],
                are_resolved(resolve, named, files),
            decreases n - i,
        {
            let path = paths[i].as_str();
            assert(named[i as int] == path@);
            let file = resolve(path);
            let ghost answer = opt_text(file);
            let ghost before = files;
            assert(is_resolved(resolve, named[i as int], answer));
            found.push(file);
            proof {
                files = files.push(answer);
                assert forall|j: int| 0 <= j < files.len() implies is_resolved(
                    resolve,
                    named[j],
                    #[trigger] files[j],
                ) by {
                    if j < before.len() {
                        assert(files[j] == before[j]);
                    }
                }
            }
            i = i + 1;
        }
        let ghost whole = files;
        assert(whole.take(n as int) =~= whole);
        assert(texts(self.pending@) + stacked(whole) =~= texts(start.pending@) + stacked(whole));
        while i > 0
            invariant
                i <= n,
                whole.len() == n,
                found@.len() == i,
                forall|j: int| 0 <= j < i ==> opt_text(#[trigger] found@[j]) == whole[j],
                self.entry == start.entry,
                self.visited == start.visited,
                self.edges == start.edges,
                texts(self.pending@) + stacked(whole.take(i as int)) == texts(start.pending@) + stacked(whole),
            decreases i,
        {
            let ghost rest = whole.take(i as int);
            assert(rest.drop_last() =~= whole.take(i - 1));
            assert(rest.last() == whole[i - 1]);
            let ghost before = texts(self.pending@);
            if let Some(last) = found.pop() {
                assert(opt_text(last) == whole[i - 1]);
                if let Some(file) = last {
                    let ghost f = file@;
                    self.pending.push(file);
                    assert(texts(self.pending@) =~= before.push(f));
                    assert(before.push(f) + stacked(whole.take(i - 1)) =~= before + stacked(rest));
                }
            }
            i = i - 1;
        }
        assert(whole.take(0) =~= Seq::empty());
        assert(texts(self.pending@) =~= texts(start.pending@) + stacked(whole));
        proof {
            self.edges = Ghost(self.edges@.union(edges_to(forward(from@), whole)));
            lemma_taken_up(start, *self, forward(from@), whole);
        }
    }

    /// The files handed out, in order, without the entrypoint.
    pub fn dependencies(&self) -> (r: Vec<String>)
        requires
            self.wf(),
        ensures
            is_ascending(texts(r@)),
            texts(r@).to_set() == self.seen().remove(self.entry@),
    {
        proof {
            lemma_ascending(*self);
        }
        let ghost all = texts(self.visited@);
        let n = self.visited.len();
        let mut out: Vec<String> = Vec::new();
        let mut i: usize = 0;
        assert(texts(out@) =~= Seq::empty());
        assert(texts(out@).to_set() =~= Set::empty());
        assert(all.take(0) =~= Seq::empty());
        assert(all.take(0).to_set() =~= Set::empty());
        while i < n
            invariant
                i <= n,
                n == self.visited@.len(),
                all == texts(self.visited@),
                all.len() == n,
                is_ascending(all),
                is_ascending(texts(out@)),
                forall|j: int| 0 <= j < out@.len() && i < n ==> text_before(#[trigger] texts(out@)[j], all[i as int]),
                texts(out@).to_set() =~= all.take(i as int).to_set().remove(self.entry@),
            decreases n - i,
        {
            let file = self.visited[i].as_str();
            let ghost kept = texts(out@);
            assert(all[i as int] == file@);
            proof {
                assert(all.take(i + 1) =~= all.take(i as int).push(file@));
                lemma_push_to_set(all.take(i as int), file@);
                lemma_push_to_set(kept, file@);
            }
            if !same_text(file, self.entry.as_str()) {
                out.push(file.to_owned());
                assert(texts(out@) =~= kept.push(file@));
            }
            proof {
                let now = texts(out@);
                assert forall|a: int, b: int| #![trigger now[a], now[b]] 0 <= a < b < now.len() implies text_before(
                    now[a],
                    now[b],
                ) by {
                    if b < kept.len() {
                        assert(text_before(kept[a], kept[b]));
                    } else {
                        assert(text_before(kept[a], all[i as int]));
                    }
                }
                if i + 1 < n {
                    assert(text_before(all[i as int], all[i + 1]));
                    assert forall|j: int| 0 <= j < now.len() implies text_before(#[trigger] now[j], all[i + 1]) by {
                        if j < kept.len() {
                            assert(text_before(kept[j], all[i as int]));
                            lemma_text_order_transitive(kept[j], all[i as int], all[i + 1]);
                        }
                    }
                }
            }
            i = i + 1;
        }
        assert(all.take(n as int) =~= all);
        out
    }
}

/// Whether a file belongs at a place of an ascending list that lacks it.
spec fn is_place(keys: Seq<Seq<char>>, at: int, key: Seq<char>) -> bool {
    &&& 0 <= at <= keys.len()
    &&& forall|j: int| 0 <= j < at ==> text_before(#[trigger] keys[j], key)
    &&& forall|j: int| at <= j < keys.len() ==> text_before(key, #[trigger] keys[j])
}

/// A list stays ascending when a file is put where it belongs.
proof fn lemma_inserted(keys: Seq<Seq<char>>, at: int, key: Seq<char>)
    requires
        is_ascending(keys),
        is_place(keys, at, key),
    ensures
        is_ascending(keys.insert(at, key)),
        keys.insert(at, key).to_set() == keys.to_set().insert(key),
{
    let more = keys.insert(at, key);
    assert forall|a: int, b: int| #![trigger more[a], more[b]] 0 <= a < b < more.len() implies text_before(
        more[a],
        more[b],
    ) by {
        let x = if a < at { a } else { a - 1 };
        let y = if b < at { b } else { b - 1 };
        if a != at && b != at {
            assert(text_before(keys[x], keys[y]));
        } else if a == at {
            assert(more[b] == keys[y]);
        } else {
            assert(more[a] == keys[x]);
        }
    }
    assert forall|file: Seq<char>| more.to_set().contains(file) <==> keys.to_set().insert(key).contains(file) by {
        if more.contains(file) {
            let j = choose|j: int| 0 <= j < more.len() && more[j] == file;
            if j < at {
                assert(keys[j] == file);
            } else if j > at {
                assert(keys[j - 1] == file);
            }
        }
        if keys.contains(file) {
            let j = choose|j: int| 0 <= j < keys.len() && keys[j] == file;
            assert(more[if j < at { j } else { j + 1 }] == file);
        }
        assert(more[at] == key);
    }
    assert(more.to_set() =~= keys.to_set().insert(key));
}

/// The files handed out stand in order.
proof fn lemma_ascending(scan: IncludeScan)
    requires
        scan.wf(),
    ensures
        is_ascending(texts(scan.visited@)),
{
    reveal(IncludeScan::wf);
}

/// What a scan still waits for when the last that waits is taken away.
proof fn lemma_still_waiting(before: IncludeScan, after: IncludeScan, file: Seq<char>)
    requires
        before.pending@.len() > 0,
        after.pending@ == before.pending@.drop_last(),
        before.is_waiting(file),
    ensures
        after.is_waiting(file) || before.waits_at(before.pending@.len() - 1) == file,
{
    let i = choose|i: int| 0 <= i < before.pending@.len() && #[trigger] before.waits_at(i) == file;
    if i < before.pending@.len() - 1 {
        assert(after.waits_at(i) == file);
    }
}

/// Passing over a file that was handed out loses nothing.
proof fn lemma_passed_over(before: IncludeScan, after: IncludeScan)
    requires
        before.wf(),
        before.pending@.len() > 0,
        after.pending@ == before.pending@.drop_last(),
        after.entry == before.entry,
        after.edges == before.edges,
        after.visited == before.visited,
        before.seen().contains(before.waits_at(before.pending@.len() - 1)),
    ensures
        after.wf(),
{
    reveal(IncludeScan::wf);
    assert(after.seen() == before.seen());
    if before.is_waiting(before.entry@) {
        lemma_still_waiting(before, after, before.entry@);
    }
    assert forall|e: (Seq<char>, Seq<char>)| #[trigger] after.edges@.contains(e) implies after.seen().contains(e.0) && (
    after.seen().contains(e.1) || after.is_waiting(e.1)) by {
        if before.is_waiting(e.1) {
            lemma_still_waiting(before, after, e.1);
        }
    }
    assert forall|i: int| 0 <= i < after.pending@.len() implies reaches(
        by_edges(after.edges@),
        after.entry@,
        #[trigger] after.waits_at(i),
    ) by {
        assert(after.waits_at(i) == before.waits_at(i));
    }
}

/// Handing out a file that waits loses nothing.
proof fn lemma_handed_out(before: IncludeScan, after: IncludeScan)
    requires
        before.wf(),
        before.pending@.len() > 0,
        after.pending@ == before.pending@.drop_last(),
        after.entry == before.entry,
        after.edges == before.edges,
        is_ascending(texts(after.visited@)),
        after.seen() == before.seen().insert(before.waits_at(before.pending@.len() - 1)),
    ensures
        after.wf(),
{
    reveal(IncludeScan::wf);
    if before.is_waiting(before.entry@) {
        lemma_still_waiting(before, after, before.entry@);
    }
    assert forall|e: (Seq<char>, Seq<char>)| #[trigger] after.edges@.contains(e) implies after.seen().contains(e.0) && (
    after.seen().contains(e.1) || after.is_waiting(e.1)) by {
        if before.is_waiting(e.1) {
            lemma_still_waiting(before, after, e.1);
        }
    }
    assert forall|i: int| 0 <= i < after.pending@.len() implies reaches(
        by_edges(after.edges@),
        after.entry@,
        #[trigger] after.waits_at(i),
    ) by {
        assert(after.waits_at(i) == before.waits_at(i));
    }
}

/// Taking up what a file pulls in keeps a scan in order.
proof fn lemma_taken_up(before: IncludeScan, after: IncludeScan, from: Seq<char>, files: Seq<Option<Seq<char>>>)
    requires
        before.wf(),
        before.seen().contains(from),
        after.entry == before.entry,
        after.visited == before.visited,
        after.edges@ == before.edges@.union(edges_to(from, files)),
        texts(after.pending@) == texts(before.pending@) + stacked(files),
    ensures
        after.wf(),
{
    reveal(IncludeScan::wf);
    let entry = before.entry@;
    let m = before.pending@.len() as int;
    let all = texts(after.pending@);
    assert(all.len() == after.pending@.len());
    assert(after.seen() == before.seen());
    assert forall|i: int| 0 <= i < m implies after.waits_at(i) == #[trigger] before.waits_at(i) by {
        assert(all[i] == texts(before.pending@)[i]);
    }
    assert forall|file: Seq<char>| before.is_waiting(file) implies #[trigger] after.is_waiting(file) by {
        let i = choose|i: int| 0 <= i < m && #[trigger] before.waits_at(i) == file;
        assert(after.waits_at(i) == file);
    }
    assert forall|file: Seq<char>| #[trigger] files_of(files).contains(file) implies after.is_waiting(file) by {
        lemma_stacked(files, file);
        let k = choose|k: int| 0 <= k < stacked(files).len() && forward(#[trigger] stacked(files)[k]) == file;
        assert(all[m + k] == stacked(files)[k]);
        assert(after.waits_at(m + k) == file);
    }
    assert forall|e: (Seq<char>, Seq<char>)| #[trigger] after.edges@.contains(e) implies after.seen().contains(e.0) && (
    after.seen().contains(e.1) || after.is_waiting(e.1)) by {
        if before.edges@.contains(e) {
            if before.is_waiting(e.1) {
                assert(after.is_waiting(e.1));
            }
        } else {
            assert(files_of(files).contains(e.1));
        }
    }
    assert forall|file: Seq<char>| #[trigger] after.seen().contains(file) implies reaches(
        by_edges(after.edges@),
        entry,
        file,
    ) by {
        assert(before.seen().contains(file));
        lemma_reaches_with_more(before.edges@, after.edges@, entry, file);
    }
    assert forall|i: int| 0 <= i < after.pending@.len() implies reaches(
        by_edges(after.edges@),
        entry,
        #[trigger] after.waits_at(i),
    ) by {
        if i < m {
            assert(after.waits_at(i) == before.waits_at(i));
            lemma_reaches_with_more(before.edges@, after.edges@, entry, before.waits_at(i));
        } else {
            let file = after.waits_at(i);
            assert(all[i] == stacked(files)[i - m]);
            lemma_stacked_is_found(files, i - m);
            assert(files_of(files).contains(file));
            assert(after.edges@.contains((from, file)));
            assert(before.seen().contains(from));
            lemma_reaches_with_more(before.edges@, after.edges@, entry, from);
            lemma_reaches_on(after.edges@, (from, file), entry);
            assert(after.edges@.insert((from, file)) =~= after.edges@);
        }
    }
    if before.is_waiting(entry) {
        assert(after.is_waiting(entry));
    }
}

/// Every file that was found is stacked.
proof fn lemma_stacked(files: Seq<Option<Seq<char>>>, file: Seq<char>)
    requires
        files_of(files).contains(file),
    ensures
        exists|k: int| 0 <= k < stacked(files).len() && forward(#[trigger] stacked(files)[k]) == file,
    decreases files.len(),
{
    let i = choose|i: int| 0 <= i < files.len() && #[trigger] opt_forward(files[i]) == Some(file);
    let init = files.drop_last();
    let s = stacked(files);
    if i == files.len() - 1 {
        assert(forward(s[0]) == file);
    } else {
        assert(opt_forward(init[i]) == Some(file));
        lemma_stacked(init, file);
        let k = choose|k: int| 0 <= k < stacked(init).len() && forward(#[trigger] stacked(init)[k]) == file;
        match files.last() {
            Some(_) => {
                assert(s[k + 1] == stacked(init)[k]);
            },
            None => {
                assert(s[k] == stacked(init)[k]);
            },
        }
    }
}

/// Nothing is stacked that was not found.
proof fn lemma_stacked_is_found(files: Seq<Option<Seq<char>>>, k: int)
    requires
        0 <= k < stacked(files).len(),
    ensures
        files_of(files).contains(forward(stacked(files)[k])),
    decreases files.len(),
{
    let init = files.drop_last();
    let n = init.len() as int;
    let file = forward(stacked(files)[k]);
    let below = match files.last() {
        Some(_) => k - 1,
        None => k,
    };
    if below < 0 {
        assert(opt_forward(files[n]) == Some(file));
    } else {
        assert(stacked(files)[k] == stacked(init)[below]);
        lemma_stacked_is_found(init, below);
        let i = choose|i: int| 0 <= i < init.len() && #[trigger] opt_forward(init[i]) == Some(file);
        assert(opt_forward(files[i]) == Some(file));
    }
}

/// With more edges, what was reached still is.
proof fn lemma_reaches_with_more(
    edges: Set<(Seq<char>, Seq<char>)>,
    more: Set<(Seq<char>, Seq<char>)>,
    from: Seq<char>,
    file: Seq<char>,
)
    requires
        edges.subset_of(more),
        reaches(by_edges(edges), from, file),
    ensures
        reaches(by_edges(more), from, file),
{
    lemma_reaches_by(edges, by_edges(more), from, file);
}

/// With one more edge from what was reached, its end is reached too.
proof fn lemma_reaches_on(edges: Set<(Seq<char>, Seq<char>)>, edge: (Seq<char>, Seq<char>), from: Seq<char>)
    requires
        reaches(by_edges(edges), from, edge.0),
    ensures
        reaches(by_edges(edges.insert(edge)), from, edge.1),
{
    let more = by_edges(edges.insert(edge));
    let route = choose|route: Seq<Seq<char>>| #[trigger]
        is_route(by_edges(edges), route) && route[0] == from && route.last() == edge.0;
    let longer = route.push(edge.1);
    assert forall|i: int| 0 <= i < longer.len() - 1 implies #[trigger] leads(more, longer, i) by {
        if i < route.len() - 1 {
            assert(longer[i] == route[i] && longer[i + 1] == route[i + 1]);
            assert(leads(by_edges(edges), route, i));
        }
    }
    assert(is_route(more, longer));
    assert(longer[0] == from && longer.last() == edge.1);
}

/// Whether this is what a path was resolved to.
pub open spec fn is_resolved<F: Fn(&str) -> Option<String>>(
    resolve: F,
    path: Seq<char>,
    file: Option<Seq<char>>,
) -> bool {
    exists|p: &str, r: Option<String>|
        p@ == path && #[trigger] call_ensures(resolve, (p,), r) && crate::text::opt_text(r) == file
}

/// Whether these are what the first paths were resolved to.
pub open spec fn are_resolved<F: Fn(&str) -> Option<String>>(
    resolve: F,
    paths: Seq<Seq<char>>,
    files: Seq<Option<Seq<char>>>,
) -> bool {
    &&& files.len() <= paths.len()
    &&& forall|i: int| 0 <= i < files.len() ==> is_resolved(resolve, paths[i], #[trigger] files[i])
}

/// The files that paths were resolved to, by their forward-slash paths.
pub open spec fn files_of(files: Seq<Option<Seq<char>>>) -> Set<Seq<char>> {
    Set::new(|f: Seq<char>| exists|i: int| 0 <= i < files.len() && #[trigger] opt_forward(files[i]) == Some(f))
}

/// From a file to each of the files that paths were resolved to.
pub open spec fn edges_to(from: Seq<char>, files: Seq<Option<Seq<char>>>) -> Set<(Seq<char>, Seq<char>)> {
    Set::new(|e: (Seq<char>, Seq<char>)| e.0 == from && files_of(files).contains(e.1))
}

/// An optional path with forward slashes.
pub open spec fn opt_forward(path: Option<Seq<char>>) -> Option<Seq<char>> {
    match path {
        Some(p) => Some(forward(p)),
        None => None,
    }
}

/// A scan that is done has handed out exactly the files that the entrypoint pulls
/// in, directly or by way of others, where what was found of each file is what it
/// pulls in.
pub proof fn law_a_scan_meets_the_transitive_includes(
    scan: IncludeScan,
    pulls: spec_fn((Seq<char>, Seq<char>)) -> bool,
    file: Seq<char>,
)
    requires
        scan.wf(),
        scan.pending@.len() == 0,
        forall|e: (Seq<char>, Seq<char>)| #[trigger]
            scan.edges@.contains(e) <==> scan.seen().contains(e.0) && pulls(e),
    ensures
        scan.seen().contains(file) <==> reaches(pulls, scan.entry@, file),
{
    reveal(IncludeScan::wf);
    let seen = scan.seen();
    let entry = scan.entry@;
    assert(seen.contains(entry));
    if seen.contains(file) {
        assert(reaches(by_edges(scan.edges@), entry, file));
        lemma_reaches_by(scan.edges@, pulls, entry, file);
    }
    assert forall|e: (Seq<char>, Seq<char>)| #[trigger] pulls(e) && seen.contains(e.0) implies seen.contains(e.1) by {
        assert(scan.edges@.contains(e));
    }
    if reaches(pulls, entry, file) {
        lemma_closed(seen, pulls, entry, file);
    }
}

/// What is reached by edges is reached by whatever they are part of.
proof fn lemma_reaches_by(
    edges: Set<(Seq<char>, Seq<char>)>,
    pulls: spec_fn((Seq<char>, Seq<char>)) -> bool,
    from: Seq<char>,
    file: Seq<char>,
)
    requires
        forall|e: (Seq<char>, Seq<char>)| #[trigger] edges.contains(e) ==> pulls(e),
        reaches(by_edges(edges), from, file),
    ensures
        reaches(pulls, from, file),
{
    let route = choose|route: Seq<Seq<char>>| #[trigger]
        is_route(by_edges(edges), route) && route[0] == from && route.last() == file;
    assert forall|i: int| 0 <= i < route.len() - 1 implies #[trigger] leads(pulls, route, i) by {
        assert(leads(by_edges(edges), route, i));
        assert(edges.contains((route[i], route[i + 1])));
    }
    assert(is_route(pulls, route));
}

/// A set that holds what its files pull in holds what they reach.
proof fn lemma_closed(
    seen: Set<Seq<char>>,
    pulls: spec_fn((Seq<char>, Seq<char>)) -> bool,
    from: Seq<char>,
    file: Seq<char>,
)
    requires
        seen.contains(from),
        forall|e: (Seq<char>, Seq<char>)| #[trigger] pulls(e) && seen.contains(e.0) ==> seen.contains(e.1),
        reaches(pulls, from, file),
    ensures
        seen.contains(file),
{
    let route = choose|route: Seq<Seq<char>>| #[trigger]
        is_route(pulls, route) && route[0] == from && route.last() == file;
    lemma_closed_along(seen, pulls, route, route.len() - 1);
}

proof fn lemma_closed_along(
    seen: Set<Seq<char>>,
    pulls: spec_fn((Seq<char>, Seq<char>)) -> bool,
    route: Seq<Seq<char>>,
    i: int,
)
    requires
        is_route(pulls, route),
        seen.contains(route[0]),
        forall|e: (Seq<char>, Seq<char>)| #[trigger] pulls(e) && seen.contains(e.0) ==> seen.contains(e.1),
        0 <= i < route.len(),
    ensures
        seen.contains(route[i]),
    decreases i,
{
    if i > 0 {
        lemma_closed_along(seen, pulls, route, i - 1);
        let before = i - 1;
        assert(leads(pulls, route, before));
        assert(pulls((route[before], route[before + 1])));
    }
}

/// What is read, and what was by then, where the files at `paths` are visited
/// one by one, each that was not visited before together with what it pulls in
/// before the next: as far as files nest no deeper than `depth`.
pub open spec fn visited_from(
    pulls: spec_fn(Seq<char>) -> Seq<Seq<char>>,
    paths: Seq<Seq<char>>,
    seen: Set<Seq<char>>,
    depth: nat,
) -> Option<(Seq<Seq<char>>, Set<Seq<char>>)>
    decreases depth, paths.len(),
{
    if paths.len() == 0 {
        Some((Seq::empty(), seen))
    } else {
        let path = paths[0];
        if seen.contains(forward(path)) {
            visited_from(pulls, paths.skip(1), seen, depth)
        } else if depth == 0 {
            None
        } else {
            match visited_from(pulls, pulls(path), seen.insert(forward(path)), (depth - 1) as nat) {
                None => None,
                Some((below, met)) => match visited_from(pulls, paths.skip(1), met, depth) {
                    None => None,
                    Some((behind, all)) => Some((seq![path] + below + behind, all)),
                },
            }
        }
    }
}

/// What is handed out, and what was by then, where the files that wait are handed
/// out from the first on and each puts what it pulls in before the others: within
/// so many files.
pub open spec fn handed_out(
    pulls: spec_fn(Seq<char>) -> Seq<Seq<char>>,
    waiting: Seq<Seq<char>>,
    seen: Set<Seq<char>>,
    steps: nat,
) -> Option<(Seq<Seq<char>>, Set<Seq<char>>)>
    decreases steps, waiting.len(),
{
    if waiting.len() == 0 {
        Some((Seq::empty(), seen))
    } else {
        let path = waiting[0];
        if seen.contains(forward(path)) {
            handed_out(pulls, waiting.skip(1), seen, steps)
        } else if steps == 0 {
            None
        } else {
            match handed_out(pulls, pulls(path) + waiting.skip(1), seen.insert(forward(path)), (steps - 1) as nat) {
                None => None,
                Some((rest, all)) => Some((seq![path] + rest, all)),
            }
        }
    }
}

proof fn lemma_visited_then(
    pulls: spec_fn(Seq<char>) -> Seq<Seq<char>>,
    paths: Seq<Seq<char>>,
    rest: Seq<Seq<char>>,
    seen: Set<Seq<char>>,
    depth: nat,
    m: nat,
)
    requires
        visited_from(pulls, paths, seen, depth) is Some,
        ({
            let (first, met) = visited_from(pulls, paths, seen, depth)->0;
            handed_out(pulls, rest, met, m) is Some
        }),
    ensures
        ({
            let (first, met) = visited_from(pulls, paths, seen, depth)->0;
            let (second, all) = handed_out(pulls, rest, met, m)->0;
            handed_out(pulls, paths + rest, seen, first.len() + m) == Some((first + second, all))
        }),
    decreases depth, paths.len(),
{
    let (first, met) = visited_from(pulls, paths, seen, depth)->0;
    let (second, all) = handed_out(pulls, rest, met, m)->0;
    let whole = paths + rest;
    if paths.len() == 0 {
        assert(whole =~= rest);
        assert(first + second =~= second);
    } else {
        let path = paths[0];
        let others = paths.skip(1);
        assert(whole[0] == path);
        assert(whole.skip(1) =~= others + rest);
        if seen.contains(forward(path)) {
            lemma_visited_then(pulls, others, rest, seen, depth, m);
        } else {
            let now = seen.insert(forward(path));
            let (below, between) = visited_from(pulls, pulls(path), now, (depth - 1) as nat)->0;
            let (behind, end) = visited_from(pulls, others, between, depth)->0;
            lemma_visited_then(pulls, others, rest, between, depth, m);
            lemma_visited_then(pulls, pulls(path), others + rest, now, (depth - 1) as nat, behind.len() + m);
            assert(first == seq![path] + below + behind);
            assert(below.len() + (behind.len() + m) == (first.len() + m) - 1);
            assert(seq![path] + (below + (behind + second)) =~= first + second);
        }
    }
}

/// Handing files out so reads what visiting them one within the other reads, in
/// the same order.
pub proof fn law_files_are_handed_out_depth_first(
    pulls: spec_fn(Seq<char>) -> Seq<Seq<char>>,
    paths: Seq<Seq<char>>,
    seen: Set<Seq<char>>,
    depth: nat,
)
    requires
        visited_from(pulls, paths, seen, depth) is Some,
    ensures
        ({
            let (order, all) = visited_from(pulls, paths, seen, depth)->0;
            handed_out(pulls, paths, seen, order.len()) == Some((order, all))
        }),
{
    let (order, all) = visited_from(pulls, paths, seen, depth)->0;
    let none = Seq::<Seq<char>>::empty();
    assert(handed_out(pulls, none, all, 0) == Some((none, all)));
    lemma_visited_then(pulls, paths, none, seen, depth, 0);
    assert(paths + none =~= paths);
    assert(order + none =~= order);
}

/// The files that paths were resolved to, in order.
pub open spec fn resolved_files(files: Seq<Option<Seq<char>>>) -> Seq<Seq<char>>
    decreases files.len(),
{
    if files.len() == 0 {
        Seq::empty()
    } else {
        match files.last() {
            Some(file) => resolved_files(files.drop_last()).push(file),
            None => resolved_files(files.drop_last()),
        }
    }
}

proof fn lemma_stacked_reversed(files: Seq<Option<Seq<char>>>)
    ensures
        stacked(files).reverse() == resolved_files(files),
    decreases files.len(),
{
    if files.len() > 0 {
        lemma_stacked_reversed(files.drop_last());
        let first = stacked(files.drop_last());
        match files.last() {
            Some(file) => {
                assert((seq![file] + first).reverse() =~= first.reverse().push(file));
            },
            None => {},
        }
    } else {
        assert(stacked(files).reverse() =~= resolved_files(files));
    }
}

/// A round of a scan, in which the next file is handed out and what it pulls in
/// is taken up, is a step of handing files out depth first; where nothing is next,
/// all was handed out.
pub proof fn law_a_round_hands_out_the_next(
    pulls: spec_fn(Seq<char>) -> Seq<Seq<char>>,
    pending: Seq<Seq<char>>,
    seen: Set<Seq<char>>,
    files: Seq<Option<Seq<char>>>,
    steps: nat,
)
    requires
        next_at(pending, seen, pending.len() as int) >= 0 ==> pulls(
            pending[next_at(pending, seen, pending.len() as int)],
        ) == resolved_files(files),
    ensures
        ({
            let k = next_at(pending, seen, pending.len() as int);
            if k < 0 {
                handed_out(pulls, pending.reverse(), seen, steps) == Some((Seq::<Seq<char>>::empty(), seen))
            } else {
                handed_out(pulls, pending.reverse(), seen, steps + 1) == match handed_out(
                    pulls,
                    (pending.take(k) + stacked(files)).reverse(),
                    seen.insert(forward(pending[k])),
                    steps,
                ) {
                    None => None,
                    Some((rest, all)) => Some((seq![pending[k]] + rest, all)),
                }
            }
        }),
    decreases pending.len(),
{
    let n = pending.len() as int;
    let waiting = pending.reverse();
    let k = next_at(pending, seen, n);
    if n > 0 {
        let top = pending.last();
        let below = pending.drop_last();
        assert(waiting[0] == top);
        assert(waiting.skip(1) =~= below.reverse());
        lemma_next_at(pending, seen, n);
        if seen.contains(forward(top)) {
            lemma_next_at_prefix(pending, below, seen, n - 1);
            law_a_round_hands_out_the_next(pulls, below, seen, files, steps);
            if k >= 0 {
                assert(below.take(k) =~= pending.take(k));
            }
        } else {
            lemma_stacked_reversed(files);
            let kept = pending.take(k);
            assert(kept =~= below);
            assert((kept + stacked(files)).reverse() =~= stacked(files).reverse() + kept.reverse());
        }
    }
}

proof fn lemma_next_at(pending: Seq<Seq<char>>, seen: Set<Seq<char>>, n: int)
    ensures
        next_at(pending, seen, n) < n || n < 0,
        -1 <= next_at(pending, seen, n),
    decreases n,
{
    if n > 0 {
        lemma_next_at(pending, seen, n - 1);
    }
}

proof fn lemma_next_at_prefix(pending: Seq<Seq<char>>, below: Seq<Seq<char>>, seen: Set<Seq<char>>, n: int)
    requires
        n <= below.len() <= pending.len(),
        forall|i: int| 0 <= i < below.len() ==> #[trigger] below[i] == pending[i],
    ensures
        next_at(pending, seen, n) == next_at(below, seen, n),
        next_at(pending, seen, n) < below.len(),
    decreases n,
{
    if n > 0 {
        lemma_next_at_prefix(pending, below, seen, n - 1);
        assert(below[n - 1] == pending[n - 1]);
    }
}

/// When no file waits any more, every file that was found was handed out, also
/// where includes form a circle.
pub proof fn law_scan_reads_every_file(scan: IncludeScan, e: (Seq<char>, Seq<char>))
    requires
        scan.wf(),
        scan.pending@.len() == 0,
        scan.edges@.contains(e),
    ensures
        scan.seen().contains(scan.entry@),
        scan.seen().contains(e.0),
        scan.seen().contains(e.1),
{
    reveal(IncludeScan::wf);
}

proof fn lemma_push_to_set(s: Seq<Seq<char>>, t: Seq<char>)
    ensures
        s.push(t).to_set() == s.to_set().insert(t),
{
    let p = s.push(t);
    assert forall|x: Seq<char>| p.to_set().contains(x) <==> s.to_set().insert(t).contains(x) by {
        if s.contains(x) {
            let k = choose|k: int| 0 <= k < s.len() && s[k] == x;
            assert(p[k] == x);
        }
        if x == t {
            assert(p[s.len() as int] == x);
        }
        if p.contains(x) {
            let k = choose|k: int| 0 <= k < p.len() && p[k] == x;
            if k < s.len() {
                assert(s[k] == x);
            }
        }
    }
    assert(p.to_set() =~= s.to_set().insert(t));
}

/// A line pulls in what stands in double quotes behind `#include`, whatever white
/// space stands around its parts and whatever follows.
pub proof fn law_a_local_include_is_read(
    before: Seq<char>,
    inside: Seq<char>,
    between: Seq<char>,
    path: Seq<char>,
    behind: Seq<char>,
)
    requires
        forall|i: int| 0 <= i < before.len() ==> is_white_space(#[trigger] before[i]),
        forall|i: int| 0 <= i < inside.len() ==> is_white_space(#[trigger] inside[i]),
        forall|i: int| 0 <= i < between.len() ==> is_white_space(#[trigger] between[i]),
        !path.contains('"'),
    ensures
        local_include(
            before + seq!['#'] + inside + "include"@ + between + seq!['"'] + path + seq!['"'] + behind,
        ) == Some(path),
{
    reveal_strlit("#");
    reveal_strlit("include");
    reveal_strlit("\"");
    let line = before + seq!['#'] + inside + "include"@ + between + seq!['"'] + path + seq!['"'] + behind;
    let at = seq!['#'] + inside + "include"@ + between + seq!['"'] + path + seq!['"'] + behind;
    assert(line =~= before + at);
    lemma_trim_start_white(before, at);
    assert(at.subrange(0, 1) =~= "#"@);
    let word = "include"@ + between + seq!['"'] + path + seq!['"'] + behind;
    assert(at.skip(1) =~= inside + word);
    assert(word[0] == 'i');
    lemma_trim_start_white(inside, word);
    assert(word.subrange(0, 7) =~= "include"@);
    let quote = seq!['"'] + path + seq!['"'] + behind;
    assert(word.skip(7) =~= between + quote);
    lemma_trim_start_white(between, quote);
    assert(quote.subrange(0, 1) =~= "\""@);
    let inner = quote.skip(1);
    assert(inner =~= path + seq!['"'] + behind);
    assert forall|j: int| 0 <= j < path.len() implies inner[j] != '"' by {
        assert(path.contains(path[j]));
    }
    lemma_first_of_is(inner, '"', path.len() as int);
    assert(inner.take(path.len() as int) =~= path);
}

/// A line pulls in nothing where its first character, or what follows `#include`,
/// is another than it should be: a comment, another directive, or a file of the
/// system.
pub proof fn law_other_lines_pull_in_nothing(
    before: Seq<char>,
    between: Seq<char>,
    c: char,
    behind: Seq<char>,
)
    requires
        forall|i: int| 0 <= i < before.len() ==> is_white_space(#[trigger] before[i]),
        forall|i: int| 0 <= i < between.len() ==> is_white_space(#[trigger] between[i]),
        !is_white_space(c),
    ensures
        c != '#' ==> local_include(before + seq![c] + behind) is None,
        c != '"' ==> local_include(before + "#include"@ + between + seq![c] + behind) is None,
        c != 'i' ==> local_include(before + seq!['#'] + between + seq![c] + behind) is None,
        local_include(before) is None,
{
    reveal_strlit("#");
    reveal_strlit("include");
    reveal_strlit("#include");
    reveal_strlit("\"");
    let none = Seq::<char>::empty();
    lemma_trim_start_white(before, none);
    assert(before + none =~= before);
    let first = seq![c] + behind;
    assert(before + seq![c] + behind =~= before + first);
    lemma_trim_start_white(before, first);
    if begins_with(first, "#"@) {
        assert(first.subrange(0, 1)[0] == c);
    }
    let at = "#include"@ + between + seq![c] + behind;
    assert(before + "#include"@ + between + seq![c] + behind =~= before + at);
    assert(at[0] == '#');
    lemma_trim_start_white(before, at);
    let word = "include"@ + between + first;
    assert(at.skip(1) =~= none + word);
    assert(word[0] == 'i');
    lemma_trim_start_white(none, word);
    assert(word.skip(7) =~= between + first);
    lemma_trim_start_white(between, first);
    if begins_with(first, "\""@) {
        assert(first.subrange(0, 1)[0] == c);
    }
    let other = seq!['#'] + between + first;
    assert(before + seq!['#'] + between + seq![c] + behind =~= before + other);
    lemma_trim_start_white(before, other);
    assert(other.skip(1) =~= between + first);
    if begins_with(first, "include"@) {
        assert(first.subrange(0, 7)[0] == c);
        assert("include"@[0] == 'i');
    }
}

/// A file pulls in what its lines pull in, line by line, and nothing else. The
/// places of those lines are given.
pub proof fn law_every_include_is_taken_up(ls: Seq<Seq<char>>, n: nat) -> (order: Seq<int>)
    requires
        n <= ls.len(),
    ensures
        selects(order, n as int, |i: int| local_include(ls[i]) is Some),
        includes_of(ls, n).len() == order.len(),
        forall|k: int| 0 <= k < order.len() ==> Some(#[trigger] includes_of(ls, n)[k]) == local_include(ls[order[k]]),
    decreases n,
{
    let wanted = |i: int| local_include(ls[i]) is Some;
    if n == 0 {
        Seq::empty()
    } else {
        let before = law_every_include_is_taken_up(ls, (n - 1) as nat);
        lemma_selects_more(before, n - 1, wanted);
        if wanted(n - 1) {
            before.push(n - 1)
        } else {
            before
        }
    }
}

/// A source in a directory is C just where the extension of its name is `c` or
/// `C`: the extension is what stands behind the last dot of the name, and a name
/// whose only dot is its first character has none.
pub proof fn law_a_name_has_the_extension_behind_its_last_dot(dir: Seq<char>, stem: Seq<char>, ext: Seq<char>)
    requires
        stem.len() > 0,
        ext.len() > 0,
        !ext.contains('.'),
        !(stem + ext).contains('/'),
        !(stem + ext).contains('\\'),
        dir.len() == 0 || dir.last() == '/',
    ensures
        path_ext(dir + stem + seq!['.'] + ext) == Some(ext),
        is_c(path_ext(dir + stem + seq!['.'] + ext)) <==> ext == seq!['c'] || ext == seq!['C'],
        path_ext(dir + seq!['.'] + ext) is None,
        !stem.contains('.') ==> path_ext(dir + stem) is None,
{
    reveal_strlit("c");
    reveal_strlit("C");
    reveal_strlit("..");
    assert("c"@ =~= seq!['c']);
    assert("C"@ =~= seq!['C']);
    let both = stem + ext;
    assert forall|i: int| 0 <= i < stem.len() implies stem[i] != '/' && stem[i] != '\\' by {
        assert(both.contains(both[i]));
    }
    assert forall|i: int| 0 <= i < ext.len() implies ext[i] != '/' && ext[i] != '\\' && ext[i] != '.' by {
        assert(both.contains(both[stem.len() + i]));
        assert(ext.contains(ext[i]));
    }
    let name = stem + seq!['.'] + ext;
    lemma_name_part(dir, name);
    assert(dir + name =~= dir + stem + seq!['.'] + ext);
    lemma_last_dot(name, stem.len() as int);
    assert(name.skip(stem.len() as int + 1) =~= ext);
    assert(name[name.len() - 1] == ext.last());
    assert(name != ".."@);
    let hidden = seq!['.'] + ext;
    lemma_name_part(dir, hidden);
    assert(dir + hidden =~= dir + seq!['.'] + ext);
    lemma_last_dot(hidden, 0);
    if !stem.contains('.') {
        assert(stem.last() != '.') by {
            assert(stem.contains(stem.last()));
        }
        lemma_name_part(dir, stem);
        lemma_last_of(stem, '.');
        if last_of(stem, '.') >= 0 {
            assert(stem.contains(stem[last_of(stem, '.')]));
        }
    }
}

proof fn lemma_last_dot(name: Seq<char>, at: int)
    requires
        0 <= at < name.len(),
        name[at] == '.',
        forall|j: int| at < j < name.len() ==> name[j] != '.',
    ensures
        last_of(name, '.') == at,
{
    lemma_last_of(name, '.');
}

proof fn lemma_name_part(dir: Seq<char>, name: Seq<char>)
    requires
        name.len() > 0,
        name.last() != '.',
        forall|i: int| 0 <= i < name.len() ==> name[i] != '/' && name[i] != '\\',
        dir.len() == 0 || dir.last() == '/',
    ensures
        name_part(dir + name) == name,
{
    let path = dir + name;
    assert(path.last() == name.last());
    assert(name.last() == name[name.len() - 1]);
    assert(bare_path(path) == path);
    lemma_last_of(path, '/');
    assert forall|j: int| dir.len() <= j < path.len() implies path[j] != '/' by {
        assert(path[j] == name[j - dir.len()]);
    }
    if dir.len() > 0 {
        assert(path[dir.len() - 1] == '/');
    }
    assert(last_of(path, '/') == dir.len() - 1);
    assert(path.skip(dir.len() as int) =~= name);
    lemma_last_of(name, '\\');
    assert(name.skip(0) =~= name);
}

/// Walking on from where components lead is walking them all; a dot leads
/// nowhere, a component that is named leads into it and two dots take that back,
/// but not a root or a prefix; a root leads to the root, behind the prefix where
/// there is one, and a prefix replaces all.
pub proof fn law_a_walk_goes_on(path: Seq<PathPart>, a: Seq<PathPart>, b: Seq<PathPart>, name: String)
    ensures
        walked(path, a + b, (a + b).len()) == walked(walked(path, a, a.len()), b, b.len()),
        walked(path, seq![PathPart::CurDir], 1) == path,
        walked(path, seq![PathPart::Normal(name)], 1) == path.push(PathPart::Normal(name)),
        walked(path, seq![PathPart::Normal(name), PathPart::ParentDir], 2) == path,
        path.len() > 0 && path.last() is Normal ==> walked(path, seq![PathPart::ParentDir], 1) == path.drop_last(),
        path.len() > 0 && (path.last() is RootDir || path.last() is Prefix) ==> walked(
            path,
            seq![PathPart::ParentDir],
            1,
        ) == path,
        path.len() == 0 ==> walked(path, seq![PathPart::ParentDir], 1) == path,
        path.len() == 0 || !(path[0] is Prefix) ==> walked(path, seq![PathPart::RootDir], 1) == seq![PathPart::RootDir],
        path.len() > 0 && path[0] is Prefix ==> walked(path, seq![PathPart::RootDir], 1) == seq![
            path[0],
            PathPart::RootDir,
        ],
        walked(path, seq![PathPart::Prefix(name)], 1) == seq![PathPart::Prefix(name)],
{
    lemma_walked_first(path, a, b, a.len());
    lemma_walked_both(path, a, b, b.len());
    reveal_with_fuel(walked, 3);
    assert(path.push(PathPart::Normal(name)).drop_last() =~= path);
}

proof fn lemma_walked_first(path: Seq<PathPart>, a: Seq<PathPart>, b: Seq<PathPart>, n: nat)
    requires
        n <= a.len(),
    ensures
        walked(path, a + b, n) == walked(path, a, n),
    decreases n,
{
    if n > 0 {
        lemma_walked_first(path, a, b, (n - 1) as nat);
        assert((a + b)[n - 1] == a[n - 1]);
    }
}

proof fn lemma_walked_both(path: Seq<PathPart>, a: Seq<PathPart>, b: Seq<PathPart>, n: nat)
    requires
        n <= b.len(),
    ensures
        walked(path, a + b, a.len() + n) == walked(walked(path, a, a.len()), b, n),
    decreases n,
{
    if n == 0 {
        lemma_walked_first(path, a, b, a.len());
    } else {
        lemma_walked_both(path, a, b, (n - 1) as nat);
        assert((a + b)[a.len() + n - 1] == b[n - 1]);
    }
}

/// The next file is the last that waits and was not handed out; there is none
/// where every one that waits was.
pub proof fn law_the_last_that_waits_is_next(pending: Seq<Seq<char>>, seen: Set<Seq<char>>)
    ensures
        ({
            let k = next_at(pending, seen, pending.len() as int);
            &&& -1 <= k < pending.len()
            &&& k >= 0 ==> !seen.contains(forward(pending[k]))
            &&& forall|j: int| k < j < pending.len() ==> seen.contains(forward(#[trigger] pending[j]))
        }),
{
    lemma_next_is(pending, seen, pending.len() as int);
}

proof fn lemma_next_is(pending: Seq<Seq<char>>, seen: Set<Seq<char>>, n: int)
    requires
        0 <= n <= pending.len(),
    ensures
        ({
            let k = next_at(pending, seen, n);
            &&& -1 <= k < n
            &&& k >= 0 ==> !seen.contains(forward(pending[k]))
            &&& forall|j: int| k < j < n ==> seen.contains(forward(#[trigger] pending[j]))
        }),
    decreases n,
{
    if n > 0 && seen.contains(forward(pending[n - 1])) {
        lemma_next_is(pending, seen, n - 1);
    }
}

/// What a file pulls in waits with the first on top: one more stands below those
/// before it.
pub proof fn law_the_first_include_is_on_top(files: Seq<Option<Seq<char>>>, file: Seq<char>)
    ensures
        stacked(files.push(Some(file))) == seq![file] + stacked(files),
        stacked(files.push(None)) == stacked(files),
        stacked(Seq::<Option<Seq<char>>>::empty()) == Seq::<Seq<char>>::empty(),
{
    assert(files.push(Some(file)).drop_last() =~= files);
    assert(files.push(None).drop_last() =~= files);
}

/// A collapsed path leads where going up as often as it says and then down its
/// components leads.
pub proof fn law_a_collapsed_path_leads_up_and_down(r: Collapsed, path: Seq<PathPart>)
    requires
        goes_down(r.down@),
    ensures
        r.from(path) == walked(
            path,
            Seq::new(r.up as nat, |i: int| PathPart::ParentDir) + r.down@,
            (r.up + r.down@.len()) as nat,
        ),
{
    let ups = Seq::new(r.up as nat, |i: int| PathPart::ParentDir);
    lemma_walked_both(path, ups, r.down@, r.down@.len());
    lemma_walked_up(path, ups, r.up as nat);
    lemma_walked_down(up(path, r.up as nat), r.down@, r.down@.len());
    assert(r.down@.take(r.down@.len() as int) =~= r.down@);
}

proof fn lemma_walked_up(path: Seq<PathPart>, ups: Seq<PathPart>, n: nat)
    requires
        n <= ups.len(),
        forall|i: int| 0 <= i < ups.len() ==> #[trigger] ups[i] == PathPart::ParentDir,
    ensures
        walked(path, ups, n) == up(path, n),
    decreases n,
{
    if n > 0 {
        lemma_walked_up(path, ups, (n - 1) as nat);
        assert(ups[n - 1] == PathPart::ParentDir);
    }
}

proof fn lemma_walked_down(path: Seq<PathPart>, parts: Seq<PathPart>, n: nat)
    requires
        n <= parts.len(),
        goes_down(parts),
    ensures
        walked(path, parts, n) == pushed_all(path, parts.take(n as int)),
    decreases n,
{
    let now = parts.take(n as int);
    if n > 0 {
        lemma_walked_down(path, parts, (n - 1) as nat);
        assert(now.drop_last() =~= parts.take(n - 1));
        assert(now.last() == parts[n - 1]);
    }
}

/// A file is found to pull in just the files that its paths were resolved to.
pub proof fn law_a_file_pulls_in_what_was_resolved(
    from: Seq<char>,
    files: Seq<Option<Seq<char>>>,
    a: Seq<char>,
    b: Seq<char>,
)
    ensures
        edges_to(from, files).contains((a, b)) <==> a == from && exists|k: int|
            0 <= k < files.len() && (#[trigger] files[k]) is Some && forward(files[k]->0) == b,
{
    if edges_to(from, files).contains((a, b)) {
        assert(files_of(files).contains(b));
    }
    if a == from && (exists|k: int|
        0 <= k < files.len() && (#[trigger] files[k]) is Some && forward(files[k]->0) == b) {
        let k = choose|k: int| 0 <= k < files.len() && (#[trigger] files[k]) is Some && forward(files[k]->0) == b;
        assert(opt_forward(files[k]) == Some(b));
        assert(files_of(files).contains(b));
    }
}

} // verus!
