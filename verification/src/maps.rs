//! The insertion-ordered maps of the configuration: `IndexMap`, as sequences of
//! entries in the order in which they were inserted.
use indexmap::IndexMap;
use vstd::prelude::*;

use crate::model::{FlagSet, LibEntry};
use crate::order::places_in_order;
use crate::text::same_text;

verus! {

/// `indexmap::IndexMap`, of which nothing is known but what the functions below
/// say of its entries.
#[verifier::external_type_specification]
#[verifier::external_body]
#[verifier::reject_recursive_types(K)]
#[verifier::reject_recursive_types(V)]
#[verifier::reject_recursive_types(S)]
pub struct ExIndexMap<K, V, S>(IndexMap<K, V, S>);

/// The libraries of a map, in order, each under its name.
pub uninterp spec fn lib_entries(m: IndexMap<String, LibEntry>) -> Seq<(Seq<char>, LibEntry)>;

/// The objects of a library, in order: sources, each with its target.
pub uninterp spec fn source_entries(m: IndexMap<String, Option<String>>) -> Seq<(Seq<char>, Option<Seq<char>>)>;

/// The flag sets of a map, in order, each under its name.
pub uninterp spec fn flag_entries(m: IndexMap<String, FlagSet>) -> Seq<(Seq<char>, FlagSet)>;

/// The texts of a map, in order, each under its key.
pub uninterp spec fn text_entries(m: IndexMap<String, String>) -> Seq<(Seq<char>, Seq<char>)>;

/// The value under a key.
pub open spec fn lookup<V>(entries: Seq<(Seq<char>, V)>, key: Seq<char>) -> Option<V>
    decreases entries.len(),
{
    if entries.len() == 0 {
        None
    } else if entries[0].0 == key {
        Some(entries[0].1)
    } else {
        lookup(entries.skip(1), key)
    }
}

/// The keys of a map, in order.
pub open spec fn keys_of<V>(entries: Seq<(Seq<char>, V)>) -> Seq<Seq<char>> {
    Seq::new(entries.len(), |i: int| entries[i].0)
}

/// The value under a key stands at one of the map's entries.
pub proof fn lemma_lookup<V>(entries: Seq<(Seq<char>, V)>, key: Seq<char>)
    ensures
        lookup(entries, key) is None <==> !keys_of(entries).contains(key),
        lookup(entries, key) is Some ==> exists|i: int|
            0 <= i < entries.len() && #[trigger] entries[i] == (key, lookup(entries, key)->0),
    decreases entries.len(),
{
    let keys = keys_of(entries);
    if entries.len() > 0 {
        if entries[0].0 == key {
            assert(keys[0] == key);
            assert(entries[0] == (key, lookup(entries, key)->0));
        } else {
            let rest = entries.skip(1);
            lemma_lookup(rest, key);
            if keys.contains(key) {
                let k = choose|k: int| 0 <= k < keys.len() && keys[k] == key;
                assert(keys_of(rest)[k - 1] == key);
            }
            if lookup(rest, key) is Some {
                let k = choose|k: int| 0 <= k < rest.len() && #[trigger] rest[k] == (key, lookup(rest, key)->0);
                assert(entries[k + 1] == (key, lookup(entries, key)->0));
                assert(keys[k + 1] == key);
            }
        }
    }
}

/// `IndexMap::len` counts the libraries.
#[verifier::external_body]
pub(crate) fn lib_count(m: &IndexMap<String, LibEntry>) -> (n: usize)
    ensures
        n == lib_entries(*m).len(),
{
    m.len()
}

/// `IndexMap::get_index` gives the library at an index, and its name.
#[verifier::external_body]
pub(crate) fn lib_at(m: &IndexMap<String, LibEntry>, i: usize) -> (r: Option<(&String, &LibEntry)>)
    ensures
        r is Some <==> i < lib_entries(*m).len(),
        match r {
            Some(entry) => (entry.0@, *entry.1) == lib_entries(*m)[i as int],
            None => true,
        },
{
    m.get_index(i)
}

/// `IndexMap::get` gives the library under a name, where there is one.
#[verifier::external_body]
pub(crate) fn lib_get<'a>(m: &'a IndexMap<String, LibEntry>, key: &str) -> (r: Option<&'a LibEntry>)
    ensures
        match r {
            Some(lib) => lookup(lib_entries(*m), key@) == Some(*lib),
            None => lookup(lib_entries(*m), key@) is None,
        },
{
    m.get(key)
}

/// Whether an entry's key is among the names.
pub open spec fn is_named<V>(entry: (Seq<char>, V), names: Seq<String>) -> bool {
    crate::text::texts(names).contains(entry.0)
}

/// Whether `key` is among the names.
pub(crate) fn is_among(names: &Vec<String>, key: &str) -> (r: bool)
    ensures
        r == crate::text::texts(names@).contains(key@),
{
    let n = names.len();
    let ghost all = crate::text::texts(names@);
    let mut i: usize = 0;
    while i < n
        invariant
            i <= n,
            n == names@.len(),
            all == crate::text::texts(names@),
            forall|j: int| 0 <= j < i ==> #[trigger] all[j] != key@,
        decreases n - i,
    {
        assert(all[i as int] == names@[i as int]@);
        if same_text(names[i].as_str(), key) {
            return true;
        }
        i = i + 1;
    }
    false
}

/// `IndexMap::retain` keeps, in their order, the libraries for whose names the
/// closure holds, and drops the others.
#[verifier::external_body]
pub(crate) fn lib_retain(m: &mut IndexMap<String, LibEntry>, names: &Vec<String>)
    ensures
        lib_entries(*final(m)) == lib_entries(*old(m)).filter(|entry: (Seq<char>, LibEntry)| is_named(entry, names@)),
{
    m.retain(|key, _| is_among(names, key.as_str()))
}

/// `IndexMap::len` counts the sources.
#[verifier::external_body]
pub(crate) fn source_count(m: &IndexMap<String, Option<String>>) -> (n: usize)
    ensures
        n == source_entries(*m).len(),
{
    m.len()
}

/// `IndexMap::get_index` gives the source at an index, and its target.
#[verifier::external_body]
pub(crate) fn source_at(m: &IndexMap<String, Option<String>>, i: usize) -> (r: Option<(&String, &Option<String>)>)
    ensures
        r is Some <==> i < source_entries(*m).len(),
        match r {
            Some(entry) => (entry.0@, crate::text::opt_text(*entry.1)) == source_entries(*m)[i as int],
            None => true,
        },
{
    m.get_index(i)
}

/// `IndexMap::len` counts the flag sets.
#[verifier::external_body]
pub(crate) fn flag_count(m: &IndexMap<String, FlagSet>) -> (n: usize)
    ensures
        n == flag_entries(*m).len(),
{
    m.len()
}

/// `IndexMap::get` gives the flag set under a name, where there is one.
#[verifier::external_body]
pub(crate) fn flag_get<'a>(m: &'a IndexMap<String, FlagSet>, key: &str) -> (r: Option<&'a FlagSet>)
    ensures
        match r {
            Some(set) => lookup(flag_entries(*m), key@) == Some(*set),
            None => lookup(flag_entries(*m), key@) is None,
        },
{
    m.get(key)
}

/// `IndexMap::len` counts the texts.
#[verifier::external_body]
pub(crate) fn text_count(m: &IndexMap<String, String>) -> (n: usize)
    ensures
        n == text_entries(*m).len(),
{
    m.len()
}

/// `IndexMap::get_index` gives the text at an index, and its key.
#[verifier::external_body]
pub(crate) fn text_at(m: &IndexMap<String, String>, i: usize) -> (r: Option<(&String, &String)>)
    ensures
        r is Some <==> i < text_entries(*m).len(),
        match r {
            Some(entry) => (entry.0@, entry.1@) == text_entries(*m)[i as int],
            None => true,
        },
{
    m.get_index(i)
}

/// Where the sources of the first `n` libraries stand: of each its library and
/// its own place in it, library by library.
pub open spec fn source_places(entries: Seq<(Seq<char>, LibEntry)>, n: nat) -> Seq<(int, int)>
    decreases n,
{
    if n == 0 || n > entries.len() {
        Seq::empty()
    } else {
        source_places(entries, (n - 1) as nat) + Seq::new(
            source_entries(entries[n - 1].1.objects).len(),
            |j: int| (n - 1, j),
        )
    }
}

/// Every source of every library has its place, each once and in their order.
pub proof fn law_every_source_has_its_place(entries: Seq<(Seq<char>, LibEntry)>, n: nat)
    requires
        n <= entries.len(),
    ensures
        places_in_order(source_places(entries, n)),
        forall|a: int|
            0 <= a < source_places(entries, n).len() ==> {
                let (i, j) = #[trigger] source_places(entries, n)[a];
                0 <= i < n && 0 <= j < source_entries(entries[i].1.objects).len()
            },
        forall|i: int, j: int|
            0 <= i < n && 0 <= j < source_entries(entries[i].1.objects).len() ==> #[trigger] source_places(
                entries,
                n,
            ).contains((i, j)),
    decreases n,
{
    if n > 0 {
        law_every_source_has_its_place(entries, (n - 1) as nat);
        let before = source_places(entries, (n - 1) as nat);
        let own = Seq::new(source_entries(entries[n - 1].1.objects).len(), |j: int| (n - 1, j));
        let all = before + own;
        assert(all == source_places(entries, n));
        assert forall|a: int| 0 <= a < all.len() implies {
            let (i, j) = #[trigger] all[a];
            0 <= i < n && 0 <= j < source_entries(entries[i].1.objects).len()
        } by {
            if a < before.len() {
                assert(all[a] == before[a]);
            } else {
                assert(all[a] == own[a - before.len()]);
            }
        }
        assert forall|i: int, j: int| 0 <= i < n && 0 <= j < source_entries(
            entries[i].1.objects,
        ).len() implies #[trigger] all.contains((i, j)) by {
            if i == n - 1 {
                assert(all[before.len() + j] == (i, j));
            } else {
                assert(before.contains((i, j)));
                let a = choose|a: int| 0 <= a < before.len() && before[a] == (i, j);
                assert(all[a] == (i, j));
            }
        }
        assert forall|a: int, b: int|
            #![trigger all[a], all[b]]
            0 <= a < b < all.len() implies all[a].0 < all[b].0 || (all[a].0 == all[b].0 && all[a].1 < all[b].1) by {
            if b < before.len() {
                assert(all[a] == before[a] && all[b] == before[b]);
            } else if a < before.len() {
                assert(all[a] == before[a]);
                assert(all[b] == own[b - before.len()]);
            } else {
                assert(all[a] == own[a - before.len()] && all[b] == own[b - before.len()]);
            }
        }
    }
}

/// Of the entries under a key the first is looked up.
pub proof fn law_the_first_entry_of_a_key_is_found<V>(entries: Seq<(Seq<char>, V)>, key: Seq<char>, i: int)
    requires
        0 <= i < entries.len(),
        entries[i].0 == key,
        forall|j: int| 0 <= j < i ==> (#[trigger] entries[j]).0 != key,
    ensures
        lookup(entries, key) == Some(entries[i].1),
    decreases i,
{
    if i > 0 {
        assert(entries[0].0 != key);
        let rest = entries.skip(1);
        assert forall|j: int| 0 <= j < i - 1 implies (#[trigger] rest[j]).0 != key by {
            assert(rest[j] == entries[j + 1]);
        }
        law_the_first_entry_of_a_key_is_found(rest, key, i - 1);
    }
}

} // verus!
