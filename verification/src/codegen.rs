//! Where a unit's objects live, and the unit list that the diff viewer reads.
use vstd::prelude::*;

use crate::dev::{law_resolved_unit_goes_by_its_name, obj_path, resolved_unit};
use crate::flags::SOURCE_ROOT;
use crate::maps::{
    keys_of, law_every_source_has_its_place, lemma_lookup, lib_at, lib_count, lib_entries, lib_get, lookup, source_at,
    source_count, source_entries, source_places, text_at, text_count, text_entries,
};
use crate::model::{Config, LibEntry, Objects};
use crate::text::{after_last, last_of, lemma_last_of, opt_text, same_text, slice_text, texts, to_chars};

verus! {

/// A path with forward slashes.
pub open spec fn forward(p: Seq<char>) -> Seq<char> {
    Seq::new(
        p.len(),
        |i: int|
            if p[i] == '\\' {
                '/'
            } else {
                p[i]
            },
    )
}

/// A path with forward slashes.
pub fn to_forward_path(p: &str) -> (r: String)
    ensures
        r@ == forward(p@),
{
    let v = to_chars(p);
    let n = v.len();
    let mut s = String::new();
    let mut i: usize = 0;
    while i < n
        invariant
            i <= n,
            n == v@.len(),
            v@ == p@,
            s@ =~= forward(p@).take(i as int),
        decreases n - i,
    {
        let c = v[i];
        s.push(
            if c == '\\' {
                '/'
            } else {
                c
            },
        );
        i = i + 1;
    }
    assert(forward(p@).take(n as int) =~= forward(p@));
    s
}

/// Where a delinked object of a library stands.
pub open spec fn delink_path(config_id: Seq<char>, lib_name: Seq<char>, target: Seq<char>) -> Seq<char> {
    "build/"@ + config_id + "/delink/"@ + lib_name + "/"@ + forward(target)
}

/// Where a delinked object of a library stands.
pub fn get_delink_path(config_id: &str, lib_name: &str, target: &str) -> (r: String)
    ensures
        r@ == delink_path(config_id@, lib_name@, target@),
{
    let mut s = String::from_str("build/");
    s.append(config_id);
    s.append("/delink/");
    s.append(lib_name);
    s.append("/");
    s.append(to_forward_path(target).as_str());
    s
}

/// `s` up to its last dot.
pub open spec fn without_extension(s: Seq<char>) -> Seq<char> {
    if last_of(s, '.') < 0 {
        s
    } else {
        s.take(last_of(s, '.'))
    }
}

/// `s` up to its last dot.
pub fn strip_last_extension(s: &str) -> (r: String)
    ensures
        r@ == without_extension(s@),
{
    let v = to_chars(s);
    let end = after_last(&v, '.');
    if end == 0 {
        s.to_owned()
    } else {
        let r = slice_text(&v, 0, end - 1);
        assert(r@ =~= s@.take(last_of(s@, '.')));
        r
    }
}

/// Where the object compiled from a source of a library goes.
pub open spec fn target_path(config_id: Seq<char>, lib_name: Seq<char>, src: Seq<char>) -> Seq<char> {
    without_extension("build/"@ + config_id + "/obj/"@ + lib_name + "/"@ + forward(src)) + ".obj"@
}

/// Where the object compiled from a source of a library goes.
pub fn get_target_path(config_id: &str, lib_name: &str, src: &str) -> (r: String)
    ensures
        r@ == target_path(config_id@, lib_name@, src@),
{
    let mut base = String::from_str("build/");
    base.append(config_id);
    base.append("/obj/");
    base.append(lib_name);
    base.append("/");
    base.append(to_forward_path(src).as_str());
    let mut s = strip_last_extension(base.as_str());
    s.append(".obj");
    s
}

/// What the diff viewer is told of a unit besides its objects.
pub struct ObjdiffUnitMetadata {
    pub complete: bool,
    pub reverse_fn_order: bool,
    pub source_path: String,
    pub progress_categories: Vec<String>,
    pub auto_generated: bool,
}

/// One unit of the diff viewer's list: one source file.
pub struct ObjdiffUnit {
    pub name: String,
    pub target_path: String,
    pub base_path: String,
    pub metadata: ObjdiffUnitMetadata,
}

/// A category that progress is reported by.
pub struct ObjdiffCategory {
    pub id: String,
    pub name: String,
}

/// What the diff viewer reads.
pub struct ObjdiffFile {
    pub min_version: String,
    pub custom_make: String,
    pub build_target: bool,
    pub watch_patterns: Vec<String>,
    pub units: Vec<ObjdiffUnit>,
    pub progress_categories: Vec<ObjdiffCategory>,
}

/// What a unit holds.
pub struct UnitFacts {
    pub name: Seq<char>,
    pub target_path: Seq<char>,
    pub base_path: Seq<char>,
    pub complete: bool,
    pub reverse_fn_order: bool,
    pub source_path: Seq<char>,
    pub progress_categories: Seq<Seq<char>>,
    pub auto_generated: bool,
}

impl View for ObjdiffUnit {
    type V = UnitFacts;

    open spec fn view(&self) -> UnitFacts {
        UnitFacts {
            name: self.name@,
            target_path: self.target_path@,
            base_path: self.base_path@,
            complete: self.metadata.complete,
            reverse_fn_order: self.metadata.reverse_fn_order,
            source_path: self.metadata.source_path@,
            progress_categories: texts(self.metadata.progress_categories@),
            auto_generated: self.metadata.auto_generated,
        }
    }
}

/// What the units of a list hold.
pub open spec fn unit_facts(units: Seq<ObjdiffUnit>) -> Seq<UnitFacts> {
    Seq::new(units.len(), |i: int| units[i]@)
}

/// What the categories of a list hold: of each its id and its name.
pub open spec fn category_facts(categories: Seq<ObjdiffCategory>) -> Seq<(Seq<char>, Seq<char>)> {
    Seq::new(categories.len(), |i: int| (categories[i].id@, categories[i].name@))
}

/// The name under which a library is delinked.
pub open spec fn delink_name(lib_name: Seq<char>, lib: LibEntry) -> Seq<char> {
    match lib.delink {
        Some(name) => name@,
        None => lib_name,
    }
}

/// The name of the delinked object that belongs to a source: its target, or
/// the source itself where it has none.
pub open spec fn target_name(entry: (Seq<char>, Option<Seq<char>>)) -> Seq<char> {
    match entry.1 {
        Some(target) => if target.len() > 0 {
            target
        } else {
            entry.0
        },
        None => entry.0,
    }
}

/// The name of the unit that a source makes.
pub open spec fn unit_name(src: Seq<char>) -> Seq<char> {
    without_extension(forward(src))
}

/// The unit that a source of a library makes.
pub open spec fn unit_at(
    config_id: Seq<char>,
    lib_name: Seq<char>,
    lib: LibEntry,
    entry: (Seq<char>, Option<Seq<char>>),
) -> UnitFacts {
    UnitFacts {
        name: unit_name(entry.0),
        target_path: delink_path(config_id, delink_name(lib_name, lib), target_name(entry)),
        base_path: target_path(config_id, lib_name, entry.0),
        complete: false,
        reverse_fn_order: false,
        source_path: SOURCE_ROOT@ + "/"@ + forward(entry.0),
        progress_categories: seq![lib.progress_category@],
        auto_generated: false,
    }
}

/// The units that a library makes.
pub open spec fn lib_units(config_id: Seq<char>, lib_name: Seq<char>, lib: LibEntry) -> Seq<UnitFacts> {
    Seq::new(
        source_entries(lib.objects).len(),
        |j: int| unit_at(config_id, lib_name, lib, source_entries(lib.objects)[j]),
    )
}

/// The units that the first `n` libraries make.
pub open spec fn units_of(config_id: Seq<char>, entries: Seq<(Seq<char>, LibEntry)>, n: nat) -> Seq<UnitFacts>
    decreases n,
{
    if n == 0 || n > entries.len() {
        Seq::empty()
    } else {
        units_of(config_id, entries, (n - 1) as nat) + lib_units(config_id, entries[n - 1].0, entries[n - 1].1)
    }
}

/// The files whose changes the diff viewer watches.
pub open spec fn watched() -> Seq<Seq<char>> {
    seq![
        "*.c"@,
        "*.cp"@,
        "*.cpp"@,
        "*.h"@,
        "*.hpp"@,
        "*.inc"@,
        "*.py"@,
        "*.yml"@,
        "*.txt"@,
        "*.json"@,
    ]
}

fn watch_patterns() -> (r: Vec<String>)
    ensures
        texts(r@) == watched(),
{
    let mut v: Vec<String> = Vec::new();
    v.push("*.c".to_owned());
    v.push("*.cp".to_owned());
    v.push("*.cpp".to_owned());
    v.push("*.h".to_owned());
    v.push("*.hpp".to_owned());
    v.push("*.inc".to_owned());
    v.push("*.py".to_owned());
    v.push("*.yml".to_owned());
    v.push("*.txt".to_owned());
    v.push("*.json".to_owned());
    assert(texts(v@) =~= watched());
    v
}

fn copy_delink_name(lib_name: &str, lib: &LibEntry) -> (r: String)
    ensures
        r@ == delink_name(lib_name@, *lib),
{
    match &lib.delink {
        Some(name) => name.as_str().to_owned(),
        None => lib_name.to_owned(),
    }
}

fn copy_target_name(src: &str, target: &Option<String>) -> (r: String)
    ensures
        r@ == target_name((src@, opt_text(*target))),
{
    match target {
        Some(t) => if t.as_str().unicode_len() > 0 {
            t.as_str().to_owned()
        } else {
            src.to_owned()
        },
        None => src.to_owned(),
    }
}

fn make_unit(config_id: &str, lib_name: &str, lib: &LibEntry, src: &str, target: &Option<String>) -> (r: ObjdiffUnit)
    ensures
        r@ == unit_at(config_id@, lib_name@, *lib, (src@, opt_text(*target))),
{
    let mut source_path = String::from_str(SOURCE_ROOT);
    source_path.append("/");
    let forward_src = to_forward_path(src);
    source_path.append(forward_src.as_str());
    let mut progress_categories: Vec<String> = Vec::new();
    progress_categories.push(lib.progress_category.as_str().to_owned());
    assert(texts(progress_categories@) =~= seq![lib.progress_category@]);
    let delinked = copy_delink_name(lib_name, lib);
    let object = copy_target_name(src, target);
    ObjdiffUnit {
        name: strip_last_extension(forward_src.as_str()),
        target_path: get_delink_path(config_id, delinked.as_str(), object.as_str()),
        base_path: get_target_path(config_id, lib_name, src),
        metadata: ObjdiffUnitMetadata {
            complete: false,
            reverse_fn_order: false,
            source_path,
            progress_categories,
            auto_generated: false,
        },
    }
}

/// Builds the diff viewer's file: one unit per source of each library.
pub fn write_objdiff(config_id: &str, config: &Config, objects: &Objects) -> (r: ObjdiffFile)
    ensures
        r.min_version@ == "2.0.0-beta.5"@,
        r.custom_make@ == "ninja"@,
        r.build_target == false,
        texts(r.watch_patterns@) == watched(),
        unit_facts(r.units@) == units_of(config_id@, lib_entries(*objects), lib_entries(*objects).len()),
        category_facts(r.progress_categories@) == text_entries(config.progress_categories),
{
    let ghost entries = lib_entries(*objects);
    let mut units: Vec<ObjdiffUnit> = Vec::new();
    let n = lib_count(objects);
    let mut i: usize = 0;
    assert(unit_facts(units@) =~= Seq::empty());
    while i < n
        invariant
            i <= n,
            n == entries.len(),
            entries == lib_entries(*objects),
            unit_facts(units@) == units_of(config_id@, entries, i as nat),
        decreases n - i,
    {
        if let Some((lib_name, lib)) = lib_at(objects, i) {
            let ghost before = unit_facts(units@);
            let ghost made = lib_units(config_id@, lib_name@, *lib);
            let m = source_count(&lib.objects);
            let mut j: usize = 0;
            assert(before + made.take(0) =~= before);
            while j < m
                invariant
                    j <= m,
                    m == source_entries(lib.objects).len(),
                    made == lib_units(config_id@, lib_name@, *lib),
                    unit_facts(units@) == before + made.take(j as int),
                decreases m - j,
            {
                if let Some((src, target)) = source_at(&lib.objects, j) {
                    let ghost was = unit_facts(units@);
                    let unit = make_unit(config_id, lib_name.as_str(), lib, src.as_str(), target);
                    let ghost facts = unit@;
                    units.push(unit);
                    assert(unit_facts(units@) =~= was.push(facts));
                    assert(made.take(j + 1) =~= made.take(j as int).push(made[j as int]));
                    assert(was.push(facts) =~= before + made.take(j + 1));
                }
                j = j + 1;
            }
            assert(made.take(m as int) =~= made);
        }
        i = i + 1;
    }
    let ghost listed = text_entries(config.progress_categories);
    let mut progress_categories: Vec<ObjdiffCategory> = Vec::new();
    let m = text_count(&config.progress_categories);
    let mut k: usize = 0;
    while k < m
        invariant
            k <= m,
            m == listed.len(),
            listed == text_entries(config.progress_categories),
            category_facts(progress_categories@) =~= listed.take(k as int),
        decreases m - k,
    {
        if let Some((id, name)) = text_at(&config.progress_categories, k) {
            let ghost was = category_facts(progress_categories@);
            progress_categories.push(
                ObjdiffCategory { id: id.as_str().to_owned(), name: name.as_str().to_owned() },
            );
            assert(category_facts(progress_categories@) =~= was.push((id@, name@)));
            assert(listed.take(k + 1) =~= listed.take(k as int).push(listed[k as int]));
        }
        k = k + 1;
    }
    assert(listed.take(m as int) =~= listed);
    ObjdiffFile {
        min_version: "2.0.0-beta.5".to_owned(),
        custom_make: "ninja".to_owned(),
        build_target: false,
        watch_patterns: watch_patterns(),
        units,
        progress_categories,
    }
}

/// Why a unit has no object paths.
#[derive(Debug)]
pub enum UnitError {
    /// No library has this name.
    Unknown(String),
    /// The library of this name declares no objects.
    NoObjects(String),
}

/// What a unit error holds.
pub enum UnitErrorFacts {
    Unknown(Seq<char>),
    NoObjects(Seq<char>),
}

impl View for UnitError {
    type V = UnitErrorFacts;

    open spec fn view(&self) -> UnitErrorFacts {
        match self {
            UnitError::Unknown(unit) => UnitErrorFacts::Unknown(unit@),
            UnitError::NoObjects(unit) => UnitErrorFacts::NoObjects(unit@),
        }
    }
}

/// What a unit error says.
pub open spec fn unit_error_text(e: UnitErrorFacts) -> Seq<char> {
    match e {
        UnitErrorFacts::Unknown(unit) => "unknown unit: "@ + unit,
        UnitErrorFacts::NoObjects(unit) => "unit "@ + unit + " declares no objects"@,
    }
}

impl UnitError {
    /// What the error says.
    pub fn message(&self) -> (r: String)
        ensures
            r@ == unit_error_text(self@),
    {
        match self {
            UnitError::Unknown(unit) => {
                let mut s = String::from_str("unknown unit: ");
                s.append(unit.as_str());
                s
            },
            UnitError::NoObjects(unit) => {
                let mut s = String::from_str("unit ");
                s.append(unit.as_str());
                s.append(" declares no objects");
                s
            },
        }
    }
}

/// The first source from `i` on that makes a unit of the given name, or the
/// number of sources where none does.
pub open spec fn source_of(sources: Seq<(Seq<char>, Option<Seq<char>>)>, name: Seq<char>, i: int) -> int
    decreases sources.len() - i,
{
    if i < 0 || i >= sources.len() {
        sources.len() as int
    } else if unit_name(sources[i].0) == name {
        i
    } else {
        source_of(sources, name, i + 1)
    }
}

/// Which of a library's sources stands for the unit of its name: the one that
/// makes the unit `src/<unit>`, or else the first.
pub open spec fn main_source(sources: Seq<(Seq<char>, Option<Seq<char>>)>, unit: Seq<char>) -> int {
    let found = source_of(sources, "src/"@ + unit, 0);
    if found < sources.len() {
        found
    } else {
        0
    }
}

/// A unit's target and base object paths.
pub open spec fn paths_of(
    config_id: Seq<char>,
    entries: Seq<(Seq<char>, LibEntry)>,
    unit: Seq<char>,
) -> Result<(Seq<char>, Seq<char>), UnitErrorFacts> {
    match lookup(entries, unit) {
        None => Err(UnitErrorFacts::Unknown(unit)),
        Some(lib) => {
            let sources = source_entries(lib.objects);
            if sources.len() == 0 {
                Err(UnitErrorFacts::NoObjects(unit))
            } else {
                let entry = sources[main_source(sources, unit)];
                Ok(
                    (
                        delink_path(config_id, delink_name(unit, lib), target_name(entry)),
                        target_path(config_id, unit, entry.0),
                    ),
                )
            }
        },
    }
}

/// Resolves a unit's target and base object paths the same way `write_objdiff`
/// lists them.
///
/// A library may declare several objects; one unit is listed per source file,
/// named after the source with its extension stripped. The one that is named
/// `src/<unit>` is chosen, and the library's first object where there is none.
pub fn unit_paths(config_id: &str, objects: &Objects, unit: &str) -> (r: Result<(String, String), UnitError>)
    ensures
        match paths_of(config_id@, lib_entries(*objects), unit@) {
            Ok(paths) => r is Ok && (r->Ok_0.0@, r->Ok_0.1@) == paths,
            Err(e) => r is Err && r->Err_0@ == e,
        },
{
    let lib = match lib_get(objects, unit) {
        Some(lib) => lib,
        None => return Err(UnitError::Unknown(unit.to_owned())),
    };
    let ghost sources = source_entries(lib.objects);
    let mut want = String::from_str("src/");
    want.append(unit);
    let n = source_count(&lib.objects);
    let mut found: usize = 0;
    let mut j: usize = 0;
    let mut searching = true;
    while searching && j < n
        invariant
            j <= n,
            n == sources.len(),
            sources == source_entries(lib.objects),
            want@ == "src/"@ + unit@,
            searching ==> found == 0 && source_of(sources, want@, 0) == source_of(sources, want@, j as int),
            !searching ==> found < n && source_of(sources, want@, 0) == found,
        decreases n - j,
    {
        if let Some((src, _)) = source_at(&lib.objects, j) {
            let name = strip_last_extension(to_forward_path(src.as_str()).as_str());
            if same_text(name.as_str(), want.as_str()) {
                found = j;
                searching = false;
            }
        }
        j = j + 1;
    }
    match source_at(&lib.objects, found) {
        Some((src, target)) => {
            let delinked = copy_delink_name(unit, lib);
            let object = copy_target_name(src.as_str(), target);
            Ok(
                (
                    get_delink_path(config_id, delinked.as_str(), object.as_str()),
                    get_target_path(config_id, unit, src.as_str()),
                ),
            )
        },
        None => Err(UnitError::NoObjects(unit.to_owned())),
    }
}

/// What is said of a unit neither of whose objects is there.
pub fn no_objects_message(unit: &str, target_path: &str, base_path: &str) -> (r: String)
    ensures
        r@ == "no objects for "@ + unit@ + ": neither "@ + target_path@ + " nor "@ + base_path@
            + " exists (run `fl bootstrap`, then `fl build "@ + unit@ + "`)"@,
{
    let mut s = String::from_str("no objects for ");
    s.append(unit);
    s.append(": neither ");
    s.append(target_path);
    s.append(" nor ");
    s.append(base_path);
    s.append(" exists (run `fl bootstrap`, then `fl build ");
    s.append(unit);
    s.append("`)");
    s
}

/// Every unit of a library is listed.
proof fn lemma_unit_is_listed(config_id: Seq<char>, entries: Seq<(Seq<char>, LibEntry)>, n: nat, i: int, j: int)
    requires
        0 <= i < n <= entries.len(),
        0 <= j < source_entries(entries[i].1.objects).len(),
    ensures
        units_of(config_id, entries, n).contains(
            unit_at(config_id, entries[i].0, entries[i].1, source_entries(entries[i].1.objects)[j]),
        ),
    decreases n,
{
    let unit = unit_at(config_id, entries[i].0, entries[i].1, source_entries(entries[i].1.objects)[j]);
    let before = units_of(config_id, entries, (n - 1) as nat);
    let added = lib_units(config_id, entries[n - 1].0, entries[n - 1].1);
    let all = units_of(config_id, entries, n);
    if i == n - 1 {
        assert(added[j] == unit);
        assert(all[before.len() + j] == unit);
    } else {
        lemma_unit_is_listed(config_id, entries, (n - 1) as nat, i, j);
        let k = choose|k: int| 0 <= k < before.len() && before[k] == unit;
        assert(all[k] == unit);
    }
}

proof fn lemma_source_of(sources: Seq<(Seq<char>, Option<Seq<char>>)>, name: Seq<char>, i: int)
    requires
        0 <= i <= sources.len(),
    ensures
        i <= source_of(sources, name, i) <= sources.len(),
        source_of(sources, name, i) < sources.len() ==> unit_name(sources[source_of(sources, name, i)].0) == name,
        forall|j: int| i <= j < source_of(sources, name, i) ==> unit_name(#[trigger] sources[j].0) != name,
    decreases sources.len() - i,
{
    if i < sources.len() && unit_name(sources[i].0) != name {
        lemma_source_of(sources, name, i + 1);
    }
}

/// The paths that a unit resolves to are those of a listed unit; where the
/// library has a source that makes the unit `src/<unit>`, of one with that name.
pub proof fn law_unit_paths_are_listed(config_id: Seq<char>, entries: Seq<(Seq<char>, LibEntry)>, unit: Seq<char>)
    requires
        paths_of(config_id, entries, unit) is Ok,
    ensures
        ({
            let sources = source_entries(lookup(entries, unit)->0.objects);
            let paths = paths_of(config_id, entries, unit)->Ok_0;
            exists|k: int|
                {
                    let listed = #[trigger] units_of(config_id, entries, entries.len())[k];
                    &&& 0 <= k < units_of(config_id, entries, entries.len()).len()
                    &&& (listed.target_path, listed.base_path) == paths
                    &&& (exists|j: int| 0 <= j < sources.len() && unit_name((#[trigger] sources[j]).0) == "src/"@ + unit)
                        ==> listed.name == "src/"@ + unit
                }
        }),
{
    lemma_lookup(entries, unit);
    let lib = lookup(entries, unit)->0;
    let i = choose|i: int| 0 <= i < entries.len() && #[trigger] entries[i] == (unit, lib);
    let sources = source_entries(lib.objects);
    lemma_source_of(sources, "src/"@ + unit, 0);
    let j = main_source(sources, unit);
    lemma_unit_is_listed(config_id, entries, entries.len(), i, j);
    let all = units_of(config_id, entries, entries.len());
    let k = choose|k: int| 0 <= k < all.len() && all[k] == unit_at(config_id, unit, lib, sources[j]);
    assert((all[k].target_path, all[k].base_path) == paths_of(config_id, entries, unit)->Ok_0);
}

/// A unit that a name means is known: its paths fail only where its library
/// declares no objects.
pub proof fn law_resolved_units_have_paths(
    config_id: Seq<char>,
    entries: Seq<(Seq<char>, LibEntry)>,
    name: Seq<char>,
    unit: Seq<char>,
)
    requires
        resolved_unit(keys_of(entries), name) == Some(unit),
    ensures
        lookup(entries, unit) is Some,
        paths_of(config_id, entries, unit) is Err <==> source_entries(lookup(entries, unit)->0.objects).len() == 0,
{
    law_resolved_unit_goes_by_its_name(keys_of(entries), name);
    lemma_lookup(entries, unit);
}

/// The object that a unit's own source `src/<unit>.cpp` is compiled to is the
/// unit's build target.
pub proof fn law_unit_source_is_built_as_its_target(config_id: Seq<char>, unit: Seq<char>)
    requires
        !unit.contains('\\'),
    ensures
        target_path(config_id, unit, "src/"@ + unit + ".cpp"@) == obj_path(config_id, unit),
{
    let src = "src/"@ + unit + ".cpp"@;
    reveal_strlit("src/");
    reveal_strlit("/src/");
    reveal_strlit(".cpp");
    reveal_strlit("/");
    assert(forward(src) =~= src) by {
        assert forall|k: int| 0 <= k < src.len() implies src[k] != '\\' by {
            if 4 <= k < 4 + unit.len() {
                assert(src[k] == unit[k - 4]);
                assert(unit.contains(unit[k - 4]));
            }
        }
    }
    let head = "build/"@ + config_id + "/obj/"@ + unit + "/"@;
    let stem = head + "src/"@ + unit;
    let base = head + src;
    assert(base =~= stem + ".cpp"@);
    lemma_last_of(base, '.');
    assert(base[stem.len() as int] == '.');
    assert(base[stem.len() as int + 1] == 'c');
    assert(base[stem.len() as int + 2] == 'p');
    assert(base[stem.len() as int + 3] == 'p');
    assert(last_of(base, '.') == stem.len());
    assert(base.take(stem.len() as int) =~= stem);
    assert("/"@ + "src/"@ =~= "/src/"@);
    assert(stem =~= "build/"@ + config_id + "/obj/"@ + unit + "/src/"@ + unit);
}

/// The last extension of a path is cut off, and everything before it is kept;
/// a path without a dot is kept whole.
pub proof fn law_the_last_extension_is_cut(stem: Seq<char>, ext: Seq<char>)
    requires
        !ext.contains('.'),
    ensures
        without_extension(stem + "."@ + ext) == stem,
        without_extension(ext) == ext,
{
    reveal_strlit(".");
    let s = stem + "."@ + ext;
    lemma_last_of(s, '.');
    lemma_last_of(ext, '.');
    assert(s[stem.len() as int] == '.');
    if last_of(s, '.') > stem.len() {
        assert(ext[last_of(s, '.') - stem.len() - 1] == '.');
    }
    assert(s.take(stem.len() as int) =~= stem);
    if last_of(ext, '.') >= 0 {
        assert(ext.contains(ext[last_of(ext, '.')]));
    }
}

/// A source is compiled into the build directory of its library, to an object of
/// its own name and path; its unit has that path too.
pub proof fn law_a_source_is_compiled_to_its_own_object(
    config_id: Seq<char>,
    lib_name: Seq<char>,
    stem: Seq<char>,
    ext: Seq<char>,
)
    requires
        !stem.contains('\\'),
        !ext.contains('\\'),
        !ext.contains('.'),
    ensures
        target_path(config_id, lib_name, stem + "."@ + ext) == "build/"@ + config_id + "/obj/"@ + lib_name + "/"@ + stem
            + ".obj"@,
        unit_name(stem + "."@ + ext) == stem,
        delink_path(config_id, lib_name, stem) == "build/"@ + config_id + "/delink/"@ + lib_name + "/"@ + stem,
{
    reveal_strlit(".");
    let src = stem + "."@ + ext;
    assert(forward(src) =~= src) by {
        assert forall|k: int| 0 <= k < src.len() implies src[k] != '\\' by {
            if k < stem.len() {
                assert(stem.contains(stem[k]));
            } else if k > stem.len() {
                assert(ext.contains(ext[k - stem.len() - 1]));
            }
        }
    }
    assert(forward(stem) =~= stem) by {
        assert forall|k: int| 0 <= k < stem.len() implies stem[k] != '\\' by {
            assert(stem.contains(stem[k]));
        }
    }
    let head = "build/"@ + config_id + "/obj/"@ + lib_name + "/"@;
    assert(head + src =~= head + stem + "."@ + ext);
    law_the_last_extension_is_cut(head + stem, ext);
    law_the_last_extension_is_cut(stem, ext);
}

/// Backslashes become slashes and nothing else is changed.
pub proof fn law_forward_paths_hold_no_backslash(p: Seq<char>, i: int)
    requires
        0 <= i < p.len(),
    ensures
        forward(p).len() == p.len(),
        p[i] == '\\' ==> forward(p)[i] == '/',
        p[i] != '\\' ==> forward(p)[i] == p[i],
{
}

/// Every source of every library makes one unit, in their order: its target
/// stands where its library is delinked, under the name of its object, or its
/// own where none is given, and its base where the source is compiled to.
pub proof fn law_every_source_makes_a_unit(config_id: Seq<char>, entries: Seq<(Seq<char>, LibEntry)>, n: nat)
    requires
        n <= entries.len(),
    ensures
        units_of(config_id, entries, n).len() == source_places(entries, n).len(),
        forall|a: int|
            0 <= a < source_places(entries, n).len() ==> {
                let unit = #[trigger] units_of(config_id, entries, n)[a];
                let (i, j) = source_places(entries, n)[a];
                let lib_name = entries[i].0;
                let lib = entries[i].1;
                let (src, object) = source_entries(lib.objects)[j];
                &&& unit.name == without_extension(forward(src))
                &&& unit.base_path == without_extension(
                    "build/"@ + config_id + "/obj/"@ + lib_name + "/"@ + forward(src),
                ) + ".obj"@
                &&& unit.target_path == "build/"@ + config_id + "/delink/"@ + (match lib.delink {
                    Some(name) => name@,
                    None => lib_name,
                }) + "/"@ + forward(
                    if object is Some && object->0.len() > 0 {
                        object->0
                    } else {
                        src
                    },
                )
                &&& unit.source_path == "."@ + "/"@ + forward(src)
                &&& unit.progress_categories == seq![lib.progress_category@]
                &&& !unit.complete && !unit.reverse_fn_order && !unit.auto_generated
            },
    decreases n,
{
    if n > 0 {
        let m = (n - 1) as nat;
        law_every_source_makes_a_unit(config_id, entries, m);
        law_every_source_has_its_place(entries, m);
        let before = units_of(config_id, entries, m);
        let own = lib_units(config_id, entries[n - 1].0, entries[n - 1].1);
        let places = source_places(entries, m);
        let more = Seq::new(source_entries(entries[n - 1].1.objects).len(), |j: int| (n - 1, j));
        assert forall|a: int| 0 <= a < (places + more).len() implies {
            let unit = #[trigger] (before + own)[a];
            let (i, j) = (places + more)[a];
            let (src, object) = source_entries(entries[i].1.objects)[j];
            unit == unit_at(config_id, entries[i].0, entries[i].1, (src, object))
        } by {
            if a < before.len() {
                assert((before + own)[a] == before[a]);
                assert((places + more)[a] == places[a]);
                lemma_unit_place(config_id, entries, m, a);
            } else {
                assert((before + own)[a] == own[a - before.len()]);
                assert((places + more)[a] == more[a - before.len()]);
            }
        }
    }
}

proof fn lemma_unit_place(config_id: Seq<char>, entries: Seq<(Seq<char>, LibEntry)>, n: nat, a: int)
    requires
        n <= entries.len(),
        0 <= a < source_places(entries, n).len(),
    ensures
        units_of(config_id, entries, n).len() == source_places(entries, n).len(),
        ({
            let (i, j) = source_places(entries, n)[a];
            units_of(config_id, entries, n)[a] == unit_at(
                config_id,
                entries[i].0,
                entries[i].1,
                source_entries(entries[i].1.objects)[j],
            )
        }),
    decreases n,
{
    let m = (n - 1) as nat;
    let places = source_places(entries, m);
    if a < places.len() {
        lemma_unit_place(config_id, entries, m, a);
    } else {
        lemma_units_len(config_id, entries, m);
    }
}

proof fn lemma_units_len(config_id: Seq<char>, entries: Seq<(Seq<char>, LibEntry)>, n: nat)
    requires
        n <= entries.len(),
    ensures
        units_of(config_id, entries, n).len() == source_places(entries, n).len(),
    decreases n,
{
    if n > 0 {
        lemma_units_len(config_id, entries, (n - 1) as nat);
    }
}

/// A unit's paths are those of its source `src/<unit>`, whatever its extension,
/// the first where there are several, and of the first source where there is
/// none. They are not told of a unit that is not known or declares no objects.
pub proof fn law_unit_paths_are_those_of_its_source(
    config_id: Seq<char>,
    entries: Seq<(Seq<char>, LibEntry)>,
    unit: Seq<char>,
    j: int,
)
    requires
        lookup(entries, unit) is Some ==> {
            let sources = source_entries(lookup(entries, unit)->0.objects);
            let own = |k: int| without_extension(forward(sources[k].0)) == "src/"@ + unit;
            sources.len() > 0 ==> {
                &&& 0 <= j < sources.len()
                &&& forall|k: int| 0 <= k < j ==> !#[trigger] own(k)
                &&& own(j) || (j == 0 && forall|k: int| 0 <= k < sources.len() ==> !#[trigger] own(k))
            }
        },
    ensures
        lookup(entries, unit) is None ==> paths_of(config_id, entries, unit) == Err::<
            (Seq<char>, Seq<char>),
            UnitErrorFacts,
        >(UnitErrorFacts::Unknown(unit)),
        lookup(entries, unit) is Some && source_entries(lookup(entries, unit)->0.objects).len() == 0 ==> paths_of(
            config_id,
            entries,
            unit,
        ) == Err::<(Seq<char>, Seq<char>), UnitErrorFacts>(UnitErrorFacts::NoObjects(unit)),
        lookup(entries, unit) is Some && source_entries(lookup(entries, unit)->0.objects).len() > 0 ==> {
            let lib = lookup(entries, unit)->0;
            let (src, object) = source_entries(lib.objects)[j];
            paths_of(config_id, entries, unit) == Ok::<(Seq<char>, Seq<char>), UnitErrorFacts>(
                (
                    "build/"@ + config_id + "/delink/"@ + (match lib.delink {
                        Some(name) => name@,
                        None => unit,
                    }) + "/"@ + forward(
                        if object is Some && object->0.len() > 0 {
                            object->0
                        } else {
                            src
                        },
                    ),
                    without_extension("build/"@ + config_id + "/obj/"@ + unit + "/"@ + forward(src)) + ".obj"@,
                ),
            )
        },
{
    if lookup(entries, unit) is Some {
        let sources = source_entries(lookup(entries, unit)->0.objects);
        let own = |k: int| without_extension(forward(sources[k].0)) == "src/"@ + unit;
        if sources.len() > 0 {
            lemma_source_of(sources, "src/"@ + unit, 0);
            let found = source_of(sources, "src/"@ + unit, 0);
            if own(j) {
                if found > j {
                    assert(unit_name(sources[j].0) != "src/"@ + unit);
                }
                if found < j {
                    assert(!own(found));
                }
            } else if found < sources.len() {
                assert(!own(found));
            }
            assert(main_source(sources, unit) == j);
        }
    }
}

} // verus!
