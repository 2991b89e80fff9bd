//! Compiler flags: named sets that build on one another, and the placeholders in
//! them.
use indexmap::IndexMap;
use vstd::prelude::*;

use crate::maps::{flag_count, flag_entries, flag_get, lemma_lookup, lookup};
use crate::model::FlagSet;
use crate::text::{
    contains_text, law_replacing_goes_left_to_right, lemma_replaced_absent, replace_text, replaced, same_text,
    stands_at, texts,
};

verus! {

/// The root that source paths are relative to.
pub const SOURCE_ROOT: &'static str = ".";

/// A flag with its placeholders filled in.
pub open spec fn substituted(flag: Seq<char>, compiler_root: Seq<char>, sdk_root: Seq<char>) -> Seq<char> {
    replaced(
        replaced(replaced(flag, "$(SOURCE_ROOT)"@, SOURCE_ROOT@), "$(COMPILER_ROOT)"@, compiler_root),
        "$(SDK_ROOT)"@,
        sdk_root,
    )
}

/// Fills in a flag's placeholders.
pub fn substitute_flag(flag: &str, compiler_root: &str, sdk_root: &str) -> (r: String)
    ensures
        r@ == substituted(flag@, compiler_root@, sdk_root@),
{
    proof {
        reveal_strlit("$(SOURCE_ROOT)");
        reveal_strlit("$(COMPILER_ROOT)");
        reveal_strlit("$(SDK_ROOT)");
    }
    let s = replace_text(flag, "$(SOURCE_ROOT)", SOURCE_ROOT);
    let s = replace_text(s.as_str(), "$(COMPILER_ROOT)", compiler_root);
    replace_text(s.as_str(), "$(SDK_ROOT)", sdk_root)
}

/// A set of flags that another builds on, or that a library names, and that is
/// not there.
#[derive(Debug)]
pub struct UnknownFlags {
    pub name: String,
}

/// What is said of a set of flags that is not there.
pub open spec fn unknown_flags_text(name: Seq<char>) -> Seq<char> {
    "unknown cflags key: "@ + name
}

impl UnknownFlags {
    /// What the error says.
    pub fn message(&self) -> (r: String)
        ensures
            r@ == unknown_flags_text(self.name@),
    {
        let mut s = String::from_str("unknown cflags key: ");
        s.append(self.name.as_str());
        s
    }
}

/// Whether the chain of sets from `name` on, each building on the next, ends
/// within `depth` names.
pub open spec fn ends_within(entries: Seq<(Seq<char>, FlagSet)>, name: Seq<char>, depth: nat) -> bool
    decreases depth,
{
    depth > 0 && match lookup(entries, name) {
        None => true,
        Some(set) => match set.base {
            None => true,
            Some(base) => ends_within(entries, base@, (depth - 1) as nat),
        },
    }
}

/// Whether the chain of sets from `name` on ends at all. One that ends passes
/// each set at most once.
pub open spec fn chain_ends(entries: Seq<(Seq<char>, FlagSet)>, name: Seq<char>) -> bool {
    ends_within(entries, name, entries.len() + 1)
}

/// The flags of a set, its placeholders filled in.
pub open spec fn own_flags(set: FlagSet, compiler_root: Seq<char>, sdk_root: Seq<char>) -> Seq<Seq<char>> {
    Seq::new(set.flags@.len(), |i: int| substituted(set.flags@[i]@, compiler_root, sdk_root))
}

/// The flags of a set behind those of the sets it builds on, or the name of the
/// one that is not there.
pub open spec fn flattened(
    entries: Seq<(Seq<char>, FlagSet)>,
    name: Seq<char>,
    compiler_root: Seq<char>,
    sdk_root: Seq<char>,
    depth: nat,
) -> Result<Seq<Seq<char>>, Seq<char>>
    decreases depth,
{
    match lookup(entries, name) {
        None => Err(name),
        Some(set) => match set.base {
            None => Ok(own_flags(set, compiler_root, sdk_root)),
            Some(base) => if depth == 0 {
                Err(name)
            } else {
                match flattened(entries, base@, compiler_root, sdk_root, (depth - 1) as nat) {
                    Err(e) => Err(e),
                    Ok(flags) => Ok(flags + own_flags(set, compiler_root, sdk_root)),
                }
            },
        },
    }
}

/// All flags under a name.
pub open spec fn all_flags(
    entries: Seq<(Seq<char>, FlagSet)>,
    name: Seq<char>,
    compiler_root: Seq<char>,
    sdk_root: Seq<char>,
) -> Result<Seq<Seq<char>>, Seq<char>> {
    flattened(entries, name, compiler_root, sdk_root, entries.len() + 1)
}

/// Whether a result holds the given flags, or fails on the given name.
pub open spec fn gives(r: Result<Vec<String>, UnknownFlags>, flags: Result<Seq<Seq<char>>, Seq<char>>) -> bool {
    match flags {
        Ok(f) => r is Ok && texts(r->Ok_0@) == f,
        Err(name) => r is Err && r->Err_0.name@ == name,
    }
}

fn flatten_into(
    name: &str,
    cflags: &IndexMap<String, FlagSet>,
    compiler_root: &str,
    sdk_root: &str,
    Ghost(depth): Ghost<nat>,
) -> (r: Result<Vec<String>, UnknownFlags>)
    requires
        ends_within(flag_entries(*cflags), name@, depth),
    ensures
        gives(r, flattened(flag_entries(*cflags), name@, compiler_root@, sdk_root@, depth)),
    decreases depth,
{
    let set = match flag_get(cflags, name) {
        Some(set) => set,
        None => return Err(UnknownFlags { name: name.to_owned() }),
    };
    let mut out = match &set.base {
        Some(base) => match flatten_into(base.as_str(), cflags, compiler_root, sdk_root, Ghost((depth - 1) as nat)) {
            Ok(flags) => flags,
            Err(e) => return Err(e),
        },
        None => Vec::new(),
    };
    let ghost below = texts(out@);
    let ghost own = own_flags(*set, compiler_root@, sdk_root@);
    let n = set.flags.len();
    let mut i: usize = 0;
    assert(below + own.take(0) =~= below);
    while i < n
        invariant
            i <= n,
            n == set.flags@.len(),
            own == own_flags(*set, compiler_root@, sdk_root@),
            texts(out@) == below + own.take(i as int),
        decreases n - i,
    {
        let ghost before = texts(out@);
        let flag = substitute_flag(set.flags[i].as_str(), compiler_root, sdk_root);
        let ghost f = flag@;
        out.push(flag);
        assert(texts(out@) =~= before.push(f));
        assert(own.take(i + 1) =~= own.take(i as int).push(own[i as int]));
        assert(before.push(f) =~= below + own.take(i + 1));
        i = i + 1;
    }
    assert(own.take(n as int) =~= own);
    assert(set.base is None ==> below =~= Seq::empty());
    assert(set.base is None ==> below + own =~= own);
    Ok(out)
}

/// Flattens a set of flags: those of the sets it builds on first, outermost
/// first, with placeholders filled in.
pub fn flatten_cflags(
    name: &str,
    cflags: &IndexMap<String, FlagSet>,
    compiler_root: &str,
    sdk_root: &str,
) -> (r: Result<Vec<String>, UnknownFlags>)
    requires
        chain_ends(flag_entries(*cflags), name@),
    ensures
        gives(r, all_flags(flag_entries(*cflags), name@, compiler_root@, sdk_root@)),
{
    flatten_into(name, cflags, compiler_root, sdk_root, Ghost(flag_entries(*cflags).len() + 1))
}

/// Tells whether the chain of sets from `name` on ends.
pub fn flag_chain_ends(name: &str, cflags: &IndexMap<String, FlagSet>) -> (r: bool)
    ensures
        r == chain_ends(flag_entries(*cflags), name@),
{
    let ghost entries = flag_entries(*cflags);
    let mut at = name;
    let mut left: usize = flag_count(cflags);
    loop
        invariant
            entries == flag_entries(*cflags),
            chain_ends(entries, name@) == ends_within(entries, at@, (left + 1) as nat),
        decreases left,
    {
        let set = match flag_get(cflags, at) {
            Some(set) => set,
            None => return true,
        };
        match &set.base {
            Some(base) => {
                if left == 0 {
                    assert(!ends_within(entries, base@, 0));
                    return false;
                }
                at = base.as_str();
                left = left - 1;
            },
            None => return true,
        }
    }
}

/// The flags under a name; none where the name is not there.
pub open spec fn flags_for(
    entries: Seq<(Seq<char>, FlagSet)>,
    key: Seq<char>,
    compiler_root: Seq<char>,
    sdk_root: Seq<char>,
) -> Result<Seq<Seq<char>>, Seq<char>> {
    if lookup(entries, key) is None {
        Ok(Seq::empty())
    } else {
        all_flags(entries, key, compiler_root, sdk_root)
    }
}

/// The flags under a name; none where the name is not there.
pub fn get_flags(
    flags_key: &str,
    flags_dict: &IndexMap<String, FlagSet>,
    compiler_root: &str,
    sdk_root: &str,
) -> (r: Result<Vec<String>, UnknownFlags>)
    requires
        chain_ends(flag_entries(*flags_dict), flags_key@),
    ensures
        gives(r, flags_for(flag_entries(*flags_dict), flags_key@, compiler_root@, sdk_root@)),
{
    if flag_get(flags_dict, flags_key).is_none() {
        let none: Vec<String> = Vec::new();
        assert(texts(none@) =~= Seq::empty());
        return Ok(none);
    }
    flatten_cflags(flags_key, flags_dict, compiler_root, sdk_root)
}

/// `base` and behind it the flags of `extra` that are not in it.
pub open spec fn merged(base: Seq<Seq<char>>, extra: Seq<Seq<char>>) -> Seq<Seq<char>> {
    base + extra.filter(|f: Seq<char>| !base.contains(f))
}

/// The entries of a map that may be absent.
pub open spec fn opt_flag_entries(m: Option<IndexMap<String, FlagSet>>) -> Option<Seq<(Seq<char>, FlagSet)>> {
    match m {
        Some(d) => Some(flag_entries(d)),
        None => None,
    }
}

/// The C++ flags under a name: the shared ones, and behind them those of the
/// C++ sets that are not among them.
pub open spec fn cxx_flags_for(
    cflags: Seq<(Seq<char>, FlagSet)>,
    cxxflags: Option<Seq<(Seq<char>, FlagSet)>>,
    key: Seq<char>,
    compiler_root: Seq<char>,
    sdk_root: Seq<char>,
) -> Result<Seq<Seq<char>>, Seq<char>> {
    match flags_for(cflags, key, compiler_root, sdk_root) {
        Err(e) => Err(e),
        Ok(shared) => match cxxflags {
            None => Ok(shared),
            Some(cxx) => match flags_for(cxx, key, compiler_root, sdk_root) {
                Err(e) => Err(e),
                Ok(extra) => Ok(merged(shared, extra)),
            },
        },
    }
}

fn merge_flags(base: Vec<String>, extra: Vec<String>) -> (r: Vec<String>)
    ensures
        texts(r@) == merged(texts(base@), texts(extra@)),
{
    let ghost shared = texts(base@);
    let ghost more = texts(extra@);
    let ghost fresh = |f: Seq<char>| !shared.contains(f);
    let seen = base.len();
    let mut out = base;
    let n = extra.len();
    let mut i: usize = 0;
    proof {
        reveal(Seq::filter);
        assert(more.take(0) =~= Seq::empty());
        assert(shared + more.take(0).filter(fresh) =~= shared);
    }
    while i < n
        invariant
            i <= n,
            n == extra@.len(),
            more == texts(extra@),
            seen == shared.len(),
            fresh == (|f: Seq<char>| !shared.contains(f)),
            texts(out@) == shared + more.take(i as int).filter(fresh),
        decreases n - i,
    {
        let flag = extra[i].as_str();
        let ghost before = texts(out@);
        assert(before.len() == out@.len());
        let mut found = false;
        let mut k: usize = 0;
        while k < seen && !found
            invariant
                k <= seen,
                seen == shared.len(),
                before == texts(out@),
                before.len() == out@.len(),
                before == shared + more.take(i as int).filter(fresh),
                found ==> shared.contains(flag@),
                !found ==> forall|j: int| 0 <= j < k ==> #[trigger] shared[j] != flag@,
            decreases seen - k + if found { 0int } else { 1 },
        {
            assert(before[k as int] == out@[k as int]@);
            assert(shared[k as int] == out@[k as int]@);
            if same_text(out[k].as_str(), flag) {
                found = true;
            } else {
                k = k + 1;
            }
        }
        proof {
            reveal(Seq::filter);
            assert(more.take(i + 1).drop_last() =~= more.take(i as int));
            assert(more.take(i + 1).last() == flag@);
        }
        if !found {
            assert(!shared.contains(flag@));
            out.push(flag.to_owned());
            assert(texts(out@) =~= before.push(flag@));
            assert(before.push(flag@) =~= shared + more.take(i as int).filter(fresh).push(flag@));
        }
        i = i + 1;
    }
    assert(more.take(n as int) =~= more);
    out
}

/// Returns the C++ compile flags for a unit by merging `cflags` and `cxxflags`:
/// all flags from `cflags[key]` (the shared base) are always there, and any
/// additional flags that appear in `cxxflags[key]` but not already in the cflags
/// set are appended after. When `cxxflags` is `None`, this is equivalent to
/// `get_flags(key, cflags, ...)`.
///
/// This keeps per-unit flags declared only in `cflags` (e.g. `/GX`, `/G6`) from
/// being silently dropped when `cxxflags` is also present in the config.
pub fn get_cxx_flags_merged(
    flags_key: &str,
    cflags: &IndexMap<String, FlagSet>,
    cxxflags: Option<&IndexMap<String, FlagSet>>,
    compiler_root: &str,
    sdk_root: &str,
) -> (r: Result<Vec<String>, UnknownFlags>)
    requires
        chain_ends(flag_entries(*cflags), flags_key@),
        cxxflags is Some ==> chain_ends(flag_entries(*cxxflags->0), flags_key@),
    ensures
        gives(
            r,
            cxx_flags_for(
                flag_entries(*cflags),
                match cxxflags {
                    Some(d) => Some(flag_entries(*d)),
                    None => None,
                },
                flags_key@,
                compiler_root@,
                sdk_root@,
            ),
        ),
{
    let shared = match get_flags(flags_key, cflags, compiler_root, sdk_root) {
        Ok(flags) => flags,
        Err(e) => return Err(e),
    };
    match cxxflags {
        None => Ok(shared),
        Some(cxx) => match get_flags(flags_key, cxx, compiler_root, sdk_root) {
            Ok(extra) => Ok(merge_flags(shared, extra)),
            Err(e) => Err(e),
        },
    }
}

proof fn lemma_ends_later(entries: Seq<(Seq<char>, FlagSet)>, name: Seq<char>, d: nat, e: nat)
    requires
        ends_within(entries, name, d),
        d <= e,
    ensures
        ends_within(entries, name, e),
    decreases d,
{
    match lookup(entries, name) {
        Some(set) => match set.base {
            Some(base) => {
                lemma_ends_later(entries, base@, (d - 1) as nat, (e - 1) as nat);
            },
            None => {},
        },
        None => {},
    }
}

/// Where the set under a name stands.
spec fn place(entries: Seq<(Seq<char>, FlagSet)>, name: Seq<char>) -> int {
    choose|i: int| 0 <= i < entries.len() && #[trigger] entries[i] == (name, lookup(entries, name)->0)
}

/// The places that a chain of `depth` names passes before its last.
spec fn passed(entries: Seq<(Seq<char>, FlagSet)>, name: Seq<char>, depth: nat) -> Seq<int>
    decreases depth,
{
    if depth <= 1 {
        Seq::empty()
    } else {
        seq![place(entries, name)] + passed(entries, lookup(entries, name)->0.base->0@, (depth - 1) as nat)
    }
}

proof fn lemma_passed(entries: Seq<(Seq<char>, FlagSet)>, name: Seq<char>, d: nat)
    requires
        d >= 1,
        ends_within(entries, name, d),
        !ends_within(entries, name, (d - 1) as nat),
    ensures
        passed(entries, name, d).len() == d - 1,
        passed(entries, name, d).no_duplicates(),
        forall|k: int|
            0 <= k < d - 1 ==> 0 <= #[trigger] passed(entries, name, d)[k] < entries.len() && ends_within(
                entries,
                entries[passed(entries, name, d)[k]].0,
                d,
            ),
    decreases d,
{
    if d > 1 {
        lemma_lookup(entries, name);
        let base = lookup(entries, name)->0.base->0@;
        let rest = passed(entries, base, (d - 1) as nat);
        let all = passed(entries, name, d);
        lemma_passed(entries, base, (d - 1) as nat);
        let first = place(entries, name);
        assert(entries[first].0 == name);
        assert forall|k: int| 0 <= k < d - 1 implies 0 <= #[trigger] all[k] < entries.len() && ends_within(
            entries,
            entries[all[k]].0,
            d,
        ) by {
            if k > 0 {
                assert(all[k] == rest[k - 1]);
                lemma_ends_later(entries, entries[rest[k - 1]].0, (d - 1) as nat, d);
            }
        }
        assert forall|i: int, j: int| 0 <= i < all.len() && 0 <= j < all.len() && i != j implies all[i] != all[j] by {
            if i > 0 {
                assert(all[i] == rest[i - 1]);
                assert(ends_within(entries, entries[rest[i - 1]].0, (d - 1) as nat));
            }
            if j > 0 {
                assert(all[j] == rest[j - 1]);
                assert(ends_within(entries, entries[rest[j - 1]].0, (d - 1) as nat));
            }
        }
    }
}

/// A chain of sets that ends at all, after however many names, ends within one
/// name more than there are sets.
pub proof fn law_a_chain_passes_no_set_twice(entries: Seq<(Seq<char>, FlagSet)>, name: Seq<char>, depth: nat)
    requires
        ends_within(entries, name, depth),
    ensures
        chain_ends(entries, name),
    decreases depth,
{
    let n = entries.len();
    if depth <= n + 1 {
        lemma_ends_later(entries, name, depth, n + 1);
    } else if ends_within(entries, name, (depth - 1) as nat) {
        law_a_chain_passes_no_set_twice(entries, name, (depth - 1) as nat);
    } else {
        lemma_passed(entries, name, depth);
        let places = passed(entries, name, depth);
        places.unique_seq_to_set();
        vstd::set_lib::lemma_int_range(0, n as int);
        assert(places.to_set().subset_of(vstd::set_lib::set_int_range(0, n as int)));
        vstd::set_lib::lemma_len_subset(places.to_set(), vstd::set_lib::set_int_range(0, n as int));
    }
}

proof fn lemma_flattened_at(
    entries: Seq<(Seq<char>, FlagSet)>,
    name: Seq<char>,
    compiler_root: Seq<char>,
    sdk_root: Seq<char>,
    d: nat,
    e: nat,
)
    requires
        ends_within(entries, name, d),
        d <= e,
    ensures
        flattened(entries, name, compiler_root, sdk_root, e) == flattened(entries, name, compiler_root, sdk_root, d),
    decreases d,
{
    match lookup(entries, name) {
        Some(set) => match set.base {
            Some(base) => {
                lemma_flattened_at(entries, base@, compiler_root, sdk_root, (d - 1) as nat, (e - 1) as nat);
            },
            None => {},
        },
        None => {},
    }
}

/// A set that builds on another has all the flags of that one, in their order,
/// and its own behind them.
pub proof fn law_flags_build_on_their_base(
    entries: Seq<(Seq<char>, FlagSet)>,
    name: Seq<char>,
    compiler_root: Seq<char>,
    sdk_root: Seq<char>,
)
    requires
        chain_ends(entries, name),
        lookup(entries, name) is Some,
        lookup(entries, name)->0.base is Some,
    ensures
        ({
            let set = lookup(entries, name)->0;
            match all_flags(entries, set.base->0@, compiler_root, sdk_root) {
                Ok(below) => all_flags(entries, name, compiler_root, sdk_root) == Ok::<Seq<Seq<char>>, Seq<char>>(
                    below + own_flags(set, compiler_root, sdk_root),
                ),
                Err(missing) => all_flags(entries, name, compiler_root, sdk_root) == Err::<Seq<Seq<char>>, Seq<char>>(
                    missing,
                ),
            }
        }),
{
    let base = lookup(entries, name)->0.base->0@;
    lemma_flattened_at(entries, base, compiler_root, sdk_root, entries.len(), entries.len() + 1);
}

/// Merging drops no flag: the shared ones stand first, as they are, every one
/// of the extra ones is there, and nothing else is.
pub proof fn law_merged_flags_drop_nothing(base: Seq<Seq<char>>, extra: Seq<Seq<char>>)
    ensures
        merged(base, extra).take(base.len() as int) == base,
        forall|f: Seq<char>|
            #[trigger] merged(base, extra).contains(f) <==> base.contains(f) || extra.contains(f),
{
    let all = merged(base, extra);
    let fresh = |f: Seq<char>| !base.contains(f);
    let added = extra.filter(fresh);
    assert(all.take(base.len() as int) =~= base);
    assert forall|f: Seq<char>| #[trigger] all.contains(f) <==> base.contains(f) || extra.contains(f) by {
        if all.contains(f) {
            let k = choose|k: int| 0 <= k < all.len() && all[k] == f;
            if k < base.len() {
                assert(base[k] == f);
            } else {
                assert(added[k - base.len()] == f);
                extra.lemma_filter_contains_rev(fresh, f);
            }
        }
        if base.contains(f) {
            let k = choose|k: int| 0 <= k < base.len() && base[k] == f;
            assert(all[k] == f);
        } else if extra.contains(f) {
            let e = choose|e: int| 0 <= e < extra.len() && extra[e] == f;
            extra.lemma_filter_contains(fresh, e);
            let k = choose|k: int| 0 <= k < added.len() && added[k] == f;
            assert(all[base.len() + k] == f);
        }
    }
}

/// A set that builds on no other has its own flags, in their order, with their
/// placeholders filled in; a name that is not there fails where it is needed,
/// and gives no flags to a library that names it.
pub proof fn law_a_set_without_a_base_has_its_own_flags(
    entries: Seq<(Seq<char>, FlagSet)>,
    name: Seq<char>,
    compiler_root: Seq<char>,
    sdk_root: Seq<char>,
)
    ensures
        lookup(entries, name) is Some && lookup(entries, name)->0.base is None ==> all_flags(
            entries,
            name,
            compiler_root,
            sdk_root,
        ) == Ok::<Seq<Seq<char>>, Seq<char>>(
            Seq::new(
                lookup(entries, name)->0.flags@.len(),
                |i: int| substituted(lookup(entries, name)->0.flags@[i]@, compiler_root, sdk_root),
            ),
        ),
        lookup(entries, name) is None ==> all_flags(entries, name, compiler_root, sdk_root) == Err::<
            Seq<Seq<char>>,
            Seq<char>,
        >(name),
        lookup(entries, name) is None ==> flags_for(entries, name, compiler_root, sdk_root) == Ok::<
            Seq<Seq<char>>,
            Seq<char>,
        >(Seq::empty()),
        lookup(entries, name) is Some ==> flags_for(entries, name, compiler_root, sdk_root) == all_flags(
            entries,
            name,
            compiler_root,
            sdk_root,
        ),
        lookup(entries, name) is Some ==> own_flags(lookup(entries, name)->0, compiler_root, sdk_root) == Seq::new(
            lookup(entries, name)->0.flags@.len(),
            |i: int| substituted(lookup(entries, name)->0.flags@[i]@, compiler_root, sdk_root),
        ),
{
}

/// One more flag of the extra ones stands last, unless the shared ones have it.
pub proof fn law_merging_one_flag_more(base: Seq<Seq<char>>, extra: Seq<Seq<char>>, f: Seq<char>)
    ensures
        base.contains(f) ==> merged(base, extra.push(f)) == merged(base, extra),
        !base.contains(f) ==> merged(base, extra.push(f)) == merged(base, extra).push(f),
        merged(base, Seq::empty()) == base,
{
    reveal(Seq::filter);
    assert(extra.push(f).drop_last() =~= extra);
    let fresh = |g: Seq<char>| !base.contains(g);
    if !base.contains(f) {
        assert(merged(base, extra.push(f)) =~= merged(base, extra).push(f));
    }
    assert(Seq::<Seq<char>>::empty().filter(fresh) =~= Seq::empty());
    assert(merged(base, Seq::empty()) =~= base);
}

/// The flags of C++ are those of C, as they are, and besides them exactly the
/// flags of the C++ sets; without such sets they are those of C.
pub proof fn law_cxx_flags_add_to_the_c_flags(
    cflags: Seq<(Seq<char>, FlagSet)>,
    cxxflags: Option<Seq<(Seq<char>, FlagSet)>>,
    key: Seq<char>,
    compiler_root: Seq<char>,
    sdk_root: Seq<char>,
    f: Seq<char>,
)
    requires
        cxx_flags_for(cflags, cxxflags, key, compiler_root, sdk_root) is Ok,
    ensures
        ({
            let all = cxx_flags_for(cflags, cxxflags, key, compiler_root, sdk_root)->Ok_0;
            let c = flags_for(cflags, key, compiler_root, sdk_root);
            &&& c is Ok
            &&& all.len() >= c->Ok_0.len()
            &&& all.take(c->Ok_0.len() as int) == c->Ok_0
            &&& match cxxflags {
                None => all == c->Ok_0,
                Some(cxx) => flags_for(cxx, key, compiler_root, sdk_root) is Ok && (all.contains(f)
                    <==> c->Ok_0.contains(f) || flags_for(cxx, key, compiler_root, sdk_root)->Ok_0.contains(f)),
            }
        }),
{
    let c = flags_for(cflags, key, compiler_root, sdk_root)->Ok_0;
    match cxxflags {
        None => {
            assert(c.take(c.len() as int) =~= c);
        },
        Some(cxx) => {
            law_merged_flags_drop_nothing(c, flags_for(cxx, key, compiler_root, sdk_root)->Ok_0);
        },
    }
}

proof fn lemma_absent(s: Seq<char>, p: Seq<char>)
    requires
        p.len() > 0,
        p[0] == '$',
        !s.contains('$'),
    ensures
        !contains_text(s, p),
{
    if contains_text(s, p) {
        let i = choose|i: int| #[trigger] stands_at(s, i, p);
        assert(s.subrange(i, i + p.len())[0] == s[i]);
    }
}

/// A placeholder that stands alone in a flag is replaced where it stands; what is
/// around it stays.
pub proof fn law_a_placeholder_is_filled_in(
    a: Seq<char>,
    b: Seq<char>,
    compiler_root: Seq<char>,
    sdk_root: Seq<char>,
)
    requires
        !a.contains('$'),
        !b.contains('$'),
        !compiler_root.contains('$'),
    ensures
        substituted(a, compiler_root, sdk_root) == a,
        substituted(a + "$(SOURCE_ROOT)"@ + b, compiler_root, sdk_root) == a + "."@ + b,
        substituted(a + "$(COMPILER_ROOT)"@ + b, compiler_root, sdk_root) == a + compiler_root + b,
        substituted(a + "$(SDK_ROOT)"@ + b, compiler_root, sdk_root) == a + sdk_root + b,
{
    reveal_strlit("$(SOURCE_ROOT)");
    reveal_strlit("$(COMPILER_ROOT)");
    reveal_strlit("$(SDK_ROOT)");
    reveal_strlit(".");
    let source = "$(SOURCE_ROOT)"@;
    let compiler = "$(COMPILER_ROOT)"@;
    let sdk = "$(SDK_ROOT)"@;
    lemma_untouched(a, source, "."@);
    lemma_untouched(a, compiler, compiler_root);
    lemma_untouched(a, sdk, sdk_root);
    let x = a + "."@ + b;
    assert(!x.contains('$')) by {
        lemma_no_dollar(a, "."@);
        lemma_no_dollar(a + "."@, b);
    }
    lemma_filled(a, source, b, "."@);
    lemma_untouched(x, compiler, compiler_root);
    lemma_untouched(x, sdk, sdk_root);
    let y = a + compiler_root + b;
    assert(!y.contains('$')) by {
        lemma_no_dollar(a, compiler_root);
        lemma_no_dollar(a + compiler_root, b);
    }
    lemma_other(a, compiler, b, source, "."@, 2);
    lemma_filled(a, compiler, b, compiler_root);
    lemma_untouched(y, sdk, sdk_root);
    lemma_other(a, sdk, b, source, "."@, 3);
    lemma_other(a, sdk, b, compiler, compiler_root, 2);
    lemma_filled(a, sdk, b, sdk_root);
}

proof fn lemma_no_dollar(a: Seq<char>, b: Seq<char>)
    requires
        !a.contains('$'),
        !b.contains('$'),
    ensures
        !(a + b).contains('$'),
{
    if (a + b).contains('$') {
        let k = choose|k: int| 0 <= k < (a + b).len() && (a + b)[k] == '$';
        if k < a.len() {
            assert(a[k] == '$');
        } else {
            assert(b[k - a.len()] == '$');
        }
    }
}

proof fn lemma_untouched(s: Seq<char>, from: Seq<char>, to: Seq<char>)
    requires
        from.len() > 0,
        from[0] == '$',
        !s.contains('$'),
    ensures
        replaced(s, from, to) == s,
{
    lemma_absent(s, from);
    lemma_replaced_absent(s, from, to);
}

/// A `$` stands in `a + from + b` only where `from` begins.
proof fn lemma_one_dollar(a: Seq<char>, from: Seq<char>, b: Seq<char>, k: int)
    requires
        !a.contains('$'),
        !b.contains('$'),
        from.len() > 0,
        forall|j: int| 0 < j < from.len() ==> #[trigger] from[j] != '$',
        0 <= k < (a + from + b).len(),
        (a + from + b)[k] == '$',
    ensures
        k == a.len(),
{
    let s = a + from + b;
    if k < a.len() {
        assert(a[k] == s[k]);
    } else if k >= a.len() + from.len() {
        assert(b[k - a.len() - from.len()] == s[k]);
    } else if k > a.len() {
        assert(from[k - a.len()] == s[k]);
    }
}

proof fn lemma_filled(a: Seq<char>, from: Seq<char>, b: Seq<char>, to: Seq<char>)
    requires
        !a.contains('$'),
        !b.contains('$'),
        from.len() > 0,
        from[0] == '$',
        forall|j: int| 0 < j < from.len() ==> #[trigger] from[j] != '$',
    ensures
        replaced(a + from + b, from, to) == a + to + b,
{
    let s = a + from + b;
    let n = a.len() as int;
    assert(s.subrange(n, n + from.len()) =~= from);
    assert forall|j: int| 0 <= j < n implies !#[trigger] stands_at(s, j, from) by {
        if stands_at(s, j, from) {
            assert(s.subrange(j, j + from.len())[0] == s[j]);
            lemma_one_dollar(a, from, b, j);
        }
    }
    law_replacing_goes_left_to_right(s, from, to, n);
    assert(s.take(n) =~= a);
    assert(s.skip(n + from.len()) =~= b);
    lemma_untouched(b, from, to);
}

proof fn lemma_other(a: Seq<char>, from: Seq<char>, b: Seq<char>, other: Seq<char>, to: Seq<char>, k: int)
    requires
        !a.contains('$'),
        !b.contains('$'),
        0 <= k < from.len(),
        k < other.len(),
        other[k] != from[k],
        other[0] == '$',
        forall|j: int| 0 < j < from.len() ==> #[trigger] from[j] != '$',
    ensures
        replaced(a + from + b, other, to) == a + from + b,
{
    let s = a + from + b;
    assert(!contains_text(s, other)) by {
        if contains_text(s, other) {
            let i = choose|i: int| #[trigger] stands_at(s, i, other);
            assert(s.subrange(i, i + other.len())[0] == s[i]);
            lemma_one_dollar(a, from, b, i);
            assert(s.subrange(i, i + other.len())[k] == s[i + k]);
            assert(s[i + k] == from[k]);
        }
    }
    lemma_replaced_absent(s, other, to);
}

} // verus!
