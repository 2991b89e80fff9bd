//! Setting a project up: finding or fetching its tools, delinking its libraries,
//! and the stubs of sources that are not there yet.
use vstd::prelude::*;

use crate::codegen::{delink_name, UnitError, UnitErrorFacts};
use crate::dev::Platform;
use crate::fetch::{hash_verdict, verify_hash, FileState, Verdict, VerdictFacts};
use crate::manifest::{BinaryTool, OrigManifest, ToolsManifest};
use crate::maps::{
    lib_at, lib_count, lib_entries, lib_get, lookup, source_at, source_count, source_entries, source_places, text_at,
    text_count, text_entries,
};
use crate::model::{LibEntry, Objects};
use crate::num::{digits, digits_text};
use crate::order::{lemma_selects_more, selects};
use crate::rename::{delink_file, delink_path};
use crate::text::{as_lines, begins_with, lemma_as_lines_more, lemma_first_of_is, lines, texts, without_cr};

verus! {

/// What is done about a tool that is not on the path.
#[derive(Clone, Copy, PartialEq, Eq, Structural)]
pub enum ToolMiss {
    /// It is downloaded to its fixed place.
    Download,
    /// It must already stand at its fixed place.
    RequireBootstrapped,
}

/// Where a tool is.
#[derive(Debug)]
pub enum ToolPath<P> {
    /// Where the user says.
    Overridden(String),
    /// On the path, under the name at this place in the list of its names.
    Found(usize, P),
    /// At its fixed place.
    Fixed(String),
}

/// Why there is no tool.
#[derive(Debug)]
pub enum ToolError<E> {
    /// It is neither on the path nor at its fixed place.
    NotBootstrapped(String),
    /// It could not be downloaded.
    Download(E),
}

/// Whether a test gave this answer for a path.
pub open spec fn answered<X: Fn(&str) -> bool>(exists_at: X, path: Seq<char>, answer: bool) -> bool {
    exists|p: &str| p@ == path && #[trigger] call_ensures(exists_at, (p,), answer)
}

/// Whether a search gave this result for a name.
pub open spec fn looked_up<P, L: Fn(&str) -> Option<P>>(lookup: L, name: Seq<char>, r: Option<P>) -> bool {
    exists|n: &str| n@ == name && #[trigger] call_ensures(lookup, (n,), r)
}

/// Whether no name of a list was found.
pub open spec fn none_found<P, L: Fn(&str) -> Option<P>>(lookup: L, names: Seq<Seq<char>>, n: int) -> bool {
    forall|j: int| 0 <= j < n ==> looked_up(lookup, #[trigger] names[j], None::<P>)
}

/// Whether a download to a path failed for this reason, or succeeded where there
/// is none.
pub open spec fn downloaded<E, D: FnOnce(&str) -> Result<(), E>>(
    download: D,
    path: Seq<char>,
    failure: Option<E>,
) -> bool {
    exists|p: &str, r: Result<(), E>|
        p@ == path && #[trigger] call_ensures(download, (p,), r) && match r {
            Ok(_) => failure is None,
            Err(e) => failure == Some(e),
        }
}

/// What is said of a tool that is not there.
pub open spec fn not_bootstrapped_text(name: Seq<char>, fixed_path: Seq<char>) -> Seq<char> {
    name + " not found on PATH or at "@ + fixed_path + "; run `flboot bootstrap` first"@
}

/// Whether a tool is resolved as it should: the first of its names that is on
/// the path decides; where none is, it is downloaded to its fixed place, or must
/// already be there.
pub open spec fn is_resolution<
    P,
    E,
    L: Fn(&str) -> Option<P>,
    X: Fn(&str) -> bool,
    D: FnOnce(&str) -> Result<(), E>,
>(
    names: Seq<Seq<char>>,
    fixed_path: Seq<char>,
    on_miss: ToolMiss,
    lookup: L,
    exists_at: X,
    download: D,
    r: Result<ToolPath<P>, ToolError<E>>,
) -> bool {
    match r {
        Ok(ToolPath::Overridden(_)) => false,
        Ok(ToolPath::Found(k, path)) => {
            &&& k < names.len()
            &&& none_found(lookup, names, k as int)
            &&& looked_up(lookup, names[k as int], Some(path))
        },
        Ok(ToolPath::Fixed(path)) => {
            &&& none_found(lookup, names, names.len() as int)
            &&& path@ == fixed_path
            &&& match on_miss {
                ToolMiss::Download => downloaded(download, fixed_path, None::<E>),
                ToolMiss::RequireBootstrapped => answered(exists_at, fixed_path, true),
            }
        },
        Err(ToolError::NotBootstrapped(message)) => {
            &&& none_found(lookup, names, names.len() as int)
            &&& on_miss == ToolMiss::RequireBootstrapped
            &&& answered(exists_at, fixed_path, false)
            &&& message@ == not_bootstrapped_text(names[0], fixed_path)
        },
        Err(ToolError::Download(e)) => {
            &&& none_found(lookup, names, names.len() as int)
            &&& on_miss == ToolMiss::Download
            &&& downloaded(download, fixed_path, Some(e))
        },
    }
}

/// Whether each call may be made where it is due, and, for all that is known,
/// nowhere else: a name is looked up only where none before it was found, and
/// only where no name was found, the fixed path is downloaded to where that is
/// asked for, and looked at where it is not.
pub open spec fn calls_are_due<
    P,
    E,
    L: Fn(&str) -> Option<P>,
    X: Fn(&str) -> bool,
    D: FnOnce(&str) -> Result<(), E>,
>(
    names: Seq<Seq<char>>,
    fixed_path: Seq<char>,
    on_miss: ToolMiss,
    lookup: L,
    exists_at: X,
    download: D,
) -> bool {
    &&& forall|k: int, n: &str|
        0 <= k < names.len() && n@ == names[k] && #[trigger] none_found(lookup, names, k)
            ==> #[trigger] call_requires(lookup, (n,))
    &&& on_miss == ToolMiss::RequireBootstrapped && none_found(lookup, names, names.len() as int) ==> forall|p: &str|
        p@ == fixed_path ==> #[trigger] call_requires(exists_at, (p,))
    &&& on_miss == ToolMiss::Download && none_found(lookup, names, names.len() as int) ==> forall|p: &str|
        p@ == fixed_path ==> #[trigger] call_requires(download, (p,))
}

/// Resolves a tool: by its names on the path, and else at its fixed place,
/// downloading it there where that is asked for. The search stops at the first
/// name that is found, and nothing else is done; only where none is, the fixed
/// place is looked at or downloaded to, whichever is asked for. A tool that is
/// nowhere needs a name to be reported by.
pub fn resolve_tool<P, E, L: Fn(&str) -> Option<P>, X: Fn(&str) -> bool, D: FnOnce(&str) -> Result<(), E>>(
    candidates: &Vec<String>,
    lookup: L,
    fixed_path: &str,
    on_miss: ToolMiss,
    exists_at: X,
    download: D,
) -> (r: Result<ToolPath<P>, ToolError<E>>)
    requires
        candidates@.len() > 0 || on_miss == ToolMiss::Download || !answered(exists_at, fixed_path@, false),
        calls_are_due(texts(candidates@), fixed_path@, on_miss, lookup, exists_at, download),
    ensures
        is_resolution(texts(candidates@), fixed_path@, on_miss, lookup, exists_at, download, r),
{
    let ghost names = texts(candidates@);
    let n = candidates.len();
    let mut i: usize = 0;
    assert(names.len() == n);
    while i < n
        invariant
            i <= n,
            n == candidates@.len(),
            names == texts(candidates@),
            names.len() == n,
            calls_are_due(names, fixed_path@, on_miss, lookup, exists_at, download),
            none_found(lookup, names, i as int),
        decreases n - i,
    {
        let name = candidates[i].as_str();
        assert(names[i as int] == name@);
        let found = lookup(name);
        assert(looked_up(lookup, names[i as int], found));
        match found {
            Some(path) => {
                return Ok(ToolPath::Found(i, path));
            },
            None => {},
        }
        i = i + 1;
    }
    match on_miss {
        ToolMiss::Download => {
            let outcome = download(fixed_path);
            match outcome {
                Ok(_) => Ok(ToolPath::Fixed(fixed_path.to_owned())),
                Err(e) => Err(ToolError::Download(e)),
            }
        },
        ToolMiss::RequireBootstrapped => {
            let present = exists_at(fixed_path);
            assert(answered(exists_at, fixed_path@, present));
            if present {
                Ok(ToolPath::Fixed(fixed_path.to_owned()))
            } else {
                assert(names[0] == candidates@[0]@);
                let mut s = candidates[0].as_str().to_owned();
                s.append(" not found on PATH or at ");
                s.append(fixed_path);
                s.append("; run `flboot bootstrap` first");
                Err(ToolError::NotBootstrapped(s))
            }
        },
    }
}

/// Whether a tool that may be overridden is resolved as it should.
pub open spec fn is_binary_resolution<
    P,
    E,
    L: Fn(&str) -> Option<P>,
    X: Fn(&str) -> bool,
    D: FnOnce(&str) -> Result<(), E>,
>(
    tool: BinaryTool,
    override_path: Option<Seq<char>>,
    platform: Platform,
    on_miss: ToolMiss,
    lookup: L,
    exists_at: X,
    download: D,
    r: Result<ToolPath<P>, ToolError<E>>,
) -> bool {
    match override_path {
        Some(path) => match r {
            Ok(ToolPath::Overridden(p)) => p@ == path,
            _ => false,
        },
        None => is_resolution(
            texts(tool.path_names@),
            tool.on(platform).dest@,
            on_miss,
            lookup,
            exists_at,
            download,
            r,
        ),
    }
}

/// Resolves a tool that is one file, unless the user says where it is: then
/// nothing is looked for or downloaded.
pub fn resolve_binary<P, E, L: Fn(&str) -> Option<P>, X: Fn(&str) -> bool, D: FnOnce(&str) -> Result<(), E>>(
    tool: &BinaryTool,
    override_path: Option<&str>,
    platform: Platform,
    on_miss: ToolMiss,
    lookup: L,
    exists_at: X,
    download: D,
) -> (r: Result<ToolPath<P>, ToolError<E>>)
    requires
        tool.path_names@.len() > 0 || on_miss == ToolMiss::Download || override_path is Some || !answered(
            exists_at,
            tool.on(platform).dest@,
            false,
        ),
        override_path is None ==> calls_are_due(
            texts(tool.path_names@),
            tool.on(platform).dest@,
            on_miss,
            lookup,
            exists_at,
            download,
        ),
    ensures
        is_binary_resolution(
            *tool,
            crate::text::opt_str(override_path),
            platform,
            on_miss,
            lookup,
            exists_at,
            download,
            r,
        ),
{
    match override_path {
        Some(path) => Ok(ToolPath::Overridden(path.to_owned())),
        None => resolve_tool(
            &tool.path_names,
            lookup,
            tool.current(platform).dest.as_str(),
            on_miss,
            exists_at,
            download,
        ),
    }
}

/// Resolves the delinker.
pub fn resolve_delink<P, E, L: Fn(&str) -> Option<P>, X: Fn(&str) -> bool, D: FnOnce(&str) -> Result<(), E>>(
    manifest: &ToolsManifest,
    override_path: Option<&str>,
    platform: Platform,
    on_miss: ToolMiss,
    lookup: L,
    exists_at: X,
    download: D,
) -> (r: Result<ToolPath<P>, ToolError<E>>)
    requires
        manifest.delink.path_names@.len() > 0 || on_miss == ToolMiss::Download || override_path is Some || !answered(
            exists_at,
            manifest.delink.on(platform).dest@,
            false,
        ),
        override_path is None ==> calls_are_due(
            texts(manifest.delink.path_names@),
            manifest.delink.on(platform).dest@,
            on_miss,
            lookup,
            exists_at,
            download,
        ),
    ensures
        is_binary_resolution(
            manifest.delink,
            crate::text::opt_str(override_path),
            platform,
            on_miss,
            lookup,
            exists_at,
            download,
            r,
        ),
{
    resolve_binary(&manifest.delink, override_path, platform, on_miss, lookup, exists_at, download)
}

/// Resolves the diff tool's command line.
pub fn resolve_objdiff_cli<P, E, L: Fn(&str) -> Option<P>, X: Fn(&str) -> bool, D: FnOnce(&str) -> Result<(), E>>(
    manifest: &ToolsManifest,
    override_path: Option<&str>,
    platform: Platform,
    on_miss: ToolMiss,
    lookup: L,
    exists_at: X,
    download: D,
) -> (r: Result<ToolPath<P>, ToolError<E>>)
    requires
        manifest.objdiff_cli.path_names@.len() > 0 || on_miss == ToolMiss::Download || override_path is Some || !answered(
            exists_at,
            manifest.objdiff_cli.on(platform).dest@,
            false,
        ),
        override_path is None ==> calls_are_due(
            texts(manifest.objdiff_cli.path_names@),
            manifest.objdiff_cli.on(platform).dest@,
            on_miss,
            lookup,
            exists_at,
            download,
        ),
    ensures
        is_binary_resolution(
            manifest.objdiff_cli,
            crate::text::opt_str(override_path),
            platform,
            on_miss,
            lookup,
            exists_at,
            download,
            r,
        ),
{
    resolve_binary(&manifest.objdiff_cli, override_path, platform, on_miss, lookup, exists_at, download)
}

/// Resolves the diff viewer.
pub fn resolve_objdiff<P, E, L: Fn(&str) -> Option<P>, X: Fn(&str) -> bool, D: FnOnce(&str) -> Result<(), E>>(
    manifest: &ToolsManifest,
    platform: Platform,
    on_miss: ToolMiss,
    lookup: L,
    exists_at: X,
    download: D,
) -> (r: Result<ToolPath<P>, ToolError<E>>)
    requires
        manifest.objdiff.path_names@.len() > 0 || on_miss == ToolMiss::Download || !answered(
            exists_at,
            manifest.objdiff.on(platform).dest@,
            false,
        ),
        calls_are_due(
            texts(manifest.objdiff.path_names@),
            manifest.objdiff.on(platform).dest@,
            on_miss,
            lookup,
            exists_at,
            download,
        ),
    ensures
        is_binary_resolution(manifest.objdiff, None, platform, on_miss, lookup, exists_at, download, r),
{
    resolve_binary(&manifest.objdiff, None, platform, on_miss, lookup, exists_at, download)
}

/// Resolves the build tool.
pub fn resolve_ninja<P, E, L: Fn(&str) -> Option<P>, X: Fn(&str) -> bool, D: FnOnce(&str) -> Result<(), E>>(
    manifest: &ToolsManifest,
    platform: Platform,
    on_miss: ToolMiss,
    lookup: L,
    exists_at: X,
    download: D,
) -> (r: Result<ToolPath<P>, ToolError<E>>)
    requires
        manifest.ninja.path_names@.len() > 0 || on_miss == ToolMiss::Download || !answered(
            exists_at,
            manifest.ninja.on(platform).dest@,
            false,
        ),
        calls_are_due(
            texts(manifest.ninja.path_names@),
            manifest.ninja.on(platform).dest@,
            on_miss,
            lookup,
            exists_at,
            download,
        ),
    ensures
        is_resolution(
            texts(manifest.ninja.path_names@),
            manifest.ninja.on(platform).dest@,
            on_miss,
            lookup,
            exists_at,
            download,
            r,
        ),
{
    resolve_tool(
        &manifest.ninja.path_names,
        lookup,
        manifest.ninja.current(platform).dest.as_str(),
        on_miss,
        exists_at,
        download,
    )
}

/// Resolves the unpacker, whose fixed place is the joined path of its pieces.
pub fn resolve_seven_zip<P, E, L: Fn(&str) -> Option<P>, X: Fn(&str) -> bool, D: FnOnce(&str) -> Result<(), E>>(
    manifest: &ToolsManifest,
    dest: &str,
    on_miss: ToolMiss,
    lookup: L,
    exists_at: X,
    download: D,
) -> (r: Result<ToolPath<P>, ToolError<E>>)
    requires
        manifest.seven_zip.path_names@.len() > 0 || on_miss == ToolMiss::Download || !answered(
            exists_at,
            dest@,
            false,
        ),
        calls_are_due(texts(manifest.seven_zip.path_names@), dest@, on_miss, lookup, exists_at, download),
    ensures
        is_resolution(texts(manifest.seven_zip.path_names@), dest@, on_miss, lookup, exists_at, download, r),
{
    resolve_tool(&manifest.seven_zip.path_names, lookup, dest, on_miss, exists_at, download)
}

/// What it takes to delink a library: its export, its binary, its database and
/// where the objects go.
pub struct DelinkPlan {
    pub json_in: String,
    pub idapro: String,
    pub binary: String,
    pub outdir: String,
}

/// What a plan holds.
pub struct PlanFacts {
    pub json_in: Seq<char>,
    pub idapro: Seq<char>,
    pub binary: Seq<char>,
    pub outdir: Seq<char>,
}

impl View for DelinkPlan {
    type V = PlanFacts;

    open spec fn view(&self) -> PlanFacts {
        PlanFacts { json_in: self.json_in@, idapro: self.idapro@, binary: self.binary@, outdir: self.outdir@ }
    }
}

/// What it takes to delink a library. Its binary is the original one unless
/// another is named.
pub open spec fn plan_for(config_id: Seq<char>, unit: Seq<char>, lib: LibEntry) -> PlanFacts {
    PlanFacts {
        json_in: delink_file(config_id, unit),
        idapro: lib.idapro@,
        binary: match lib.binary {
            Some(path) => path@,
            None => "orig/"@ + config_id + "/"@ + unit,
        },
        outdir: "build/"@ + config_id + "/delink/"@ + delink_name(unit, lib),
    }
}

fn make_plan(config_id: &str, unit: &str, lib: &LibEntry) -> (r: DelinkPlan)
    ensures
        r@ == plan_for(config_id@, unit@, *lib),
{
    let binary = match &lib.binary {
        Some(path) => path.as_str().to_owned(),
        None => {
            let mut s = String::from_str("orig/");
            s.append(config_id);
            s.append("/");
            s.append(unit);
            s
        },
    };
    let mut outdir = String::from_str("build/");
    outdir.append(config_id);
    outdir.append("/delink/");
    match &lib.delink {
        Some(name) => {
            outdir.append(name.as_str());
        },
        None => {
            outdir.append(unit);
        },
    }
    DelinkPlan { json_in: delink_path(config_id, unit), idapro: lib.idapro.as_str().to_owned(), binary, outdir }
}

/// Plans the delinking of one unit.
pub fn delink_plan(objects: &Objects, config_id: &str, unit: &str) -> (r: Result<DelinkPlan, UnitError>)
    ensures
        match lookup(lib_entries(*objects), unit@) {
            Some(lib) => r is Ok && r->Ok_0@ == plan_for(config_id@, unit@, lib),
            None => r is Err && r->Err_0@ == UnitErrorFacts::Unknown(unit@),
        },
{
    match lib_get(objects, unit) {
        Some(lib) => Ok(make_plan(config_id, unit, lib)),
        None => Err(UnitError::Unknown(unit.to_owned())),
    }
}

/// The arguments that the delinker is run with, given the binary's full path.
pub fn delink_args(plan: &DelinkPlan, binary: &str) -> (r: Vec<String>)
    ensures
        texts(r@) == seq![
            "ida-split"@,
            plan.json_in@,
            binary@,
            "--idapro"@,
            plan.idapro@,
            "-o"@,
            plan.outdir@,
        ],
{
    let mut v: Vec<String> = Vec::new();
    v.push("ida-split".to_owned());
    v.push(plan.json_in.as_str().to_owned());
    v.push(binary.to_owned());
    v.push("--idapro".to_owned());
    v.push(plan.idapro.as_str().to_owned());
    v.push("-o".to_owned());
    v.push(plan.outdir.as_str().to_owned());
    assert(texts(v@) =~= seq![
        "ida-split"@,
        plan.json_in@,
        binary@,
        "--idapro"@,
        plan.idapro@,
        "-o"@,
        plan.outdir@,
    ]);
    v
}

/// A library to be delinked.
pub struct SplitUnit {
    pub unit: String,
    pub plan: DelinkPlan,
}

/// What the libraries of a list hold.
pub open spec fn split_facts(units: Seq<SplitUnit>) -> Seq<(Seq<char>, PlanFacts)> {
    Seq::new(units.len(), |i: int| (units[i].unit@, units[i].plan@))
}

/// What it takes to delink each library.
pub open spec fn plans_of(config_id: Seq<char>, entries: Seq<(Seq<char>, LibEntry)>) -> Seq<(Seq<char>, PlanFacts)> {
    Seq::new(entries.len(), |i: int| (entries[i].0, plan_for(config_id, entries[i].0, entries[i].1)))
}

/// Plans the delinking of every library, in order.
pub fn split_plan(objects: &Objects, config_id: &str) -> (r: Vec<SplitUnit>)
    ensures
        split_facts(r@) == plans_of(config_id@, lib_entries(*objects)),
{
    let ghost entries = lib_entries(*objects);
    let n = lib_count(objects);
    let mut out: Vec<SplitUnit> = Vec::new();
    let mut i: usize = 0;
    while i < n
        invariant
            i <= n,
            n == entries.len(),
            entries == lib_entries(*objects),
            out@.len() == i,
            forall|j: int|
                0 <= j < i ==> (#[trigger] out@[j]).unit@ == entries[j].0 && out@[j].plan@ == plan_for(
                    config_id@,
                    entries[j].0,
                    entries[j].1,
                ),
        decreases n - i,
    {
        if let Some((unit, lib)) = lib_at(objects, i) {
            assert(entries[i as int] == (unit@, *lib));
            let plan = make_plan(config_id, unit.as_str(), lib);
            out.push(SplitUnit { unit: unit.as_str().to_owned(), plan });
        }
        i = i + 1;
    }
    assert(split_facts(out@) =~= plans_of(config_id@, entries));
    out
}

/// What keeps a library from being delinked: the first of its inputs that is
/// missing.
pub open spec fn missing_input_text(
    plan: PlanFacts,
    has_export: bool,
    has_idapro: bool,
    has_binary: bool,
) -> Option<Seq<char>> {
    if !has_export {
        Some("missing export "@ + plan.json_in)
    } else if !has_idapro {
        Some("missing idapro "@ + plan.idapro)
    } else if !has_binary {
        Some("missing binary "@ + plan.binary)
    } else {
        None
    }
}

/// Tells what keeps a library from being delinked, where anything does.
pub fn missing_input(plan: &DelinkPlan, has_export: bool, has_idapro: bool, has_binary: bool) -> (r: Option<String>)
    ensures
        crate::text::opt_text(r) == missing_input_text(plan@, has_export, has_idapro, has_binary),
{
    let (what, path) = if !has_export {
        ("missing export ", plan.json_in.as_str())
    } else if !has_idapro {
        ("missing idapro ", plan.idapro.as_str())
    } else if !has_binary {
        ("missing binary ", plan.binary.as_str())
    } else {
        return None;
    };
    let mut s = String::from_str(what);
    s.append(path);
    Some(s)
}

/// The failures of a list: libraries and why they failed.
pub open spec fn failure_lines(failures: Seq<(String, String)>) -> Seq<Seq<char>> {
    Seq::new(failures.len(), |i: int| "  "@ + failures[i].0@ + ": "@ + failures[i].1@)
}

/// What is said when all libraries were tried: how many succeeded, and, where
/// some failed, how many and why.
pub struct SplitSummary {
    pub info: String,
    pub errors: Vec<String>,
}

/// Whether a summary is that of `total` libraries with these failures.
pub open spec fn is_summary(r: SplitSummary, total: nat, failures: Seq<(String, String)>) -> bool {
    &&& r.info@ == "split phase: "@ + digits((total - failures.len()) as nat, 10) + "/"@ + digits(total, 10)
        + " libraries ok"@
    &&& failures.len() == 0 ==> r.errors@.len() == 0
    &&& failures.len() > 0 ==> texts(r.errors@) == seq![digits(failures.len(), 10) + " failures:"@] + failure_lines(
        failures,
    )
}

/// Sums up the delinking of `total` libraries.
pub fn split_summary(total: usize, failures: &Vec<(String, String)>) -> (r: SplitSummary)
    requires
        failures@.len() <= total,
    ensures
        is_summary(r, total as nat, failures@),
{
    let n = failures.len();
    let mut info = String::from_str("split phase: ");
    info.append(digits_text((total - n) as u64, 10).as_str());
    info.append("/");
    info.append(digits_text(total as u64, 10).as_str());
    info.append(" libraries ok");
    let mut errors: Vec<String> = Vec::new();
    if n == 0 {
        return SplitSummary { info, errors };
    }
    let mut head = digits_text(n as u64, 10);
    head.append(" failures:");
    let ghost first = head@;
    errors.push(head);
    let ghost lines = failure_lines(failures@);
    let mut i: usize = 0;
    assert(texts(errors@) =~= seq![first] + lines.take(0));
    while i < n
        invariant
            i <= n,
            n == failures@.len(),
            lines == failure_lines(failures@),
            texts(errors@) == seq![first] + lines.take(i as int),
        decreases n - i,
    {
        let mut s = String::from_str("  ");
        s.append(failures[i].0.as_str());
        s.append(": ");
        s.append(failures[i].1.as_str());
        let ghost before = texts(errors@);
        let ghost l = s@;
        errors.push(s);
        assert(texts(errors@) =~= before.push(l));
        assert(before.push(l) =~= seq![first] + lines.take(i + 1));
        i = i + 1;
    }
    assert(lines.take(n as int) =~= lines);
    SplitSummary { info, errors }
}

/// A best-effort run over all libraries: each is tried in turn, and a failed one
/// is recorded and does not end the run.
pub struct SplitRun {
    /// All libraries.
    pub units: Vec<SplitUnit>,
    /// How many of them were tried.
    pub done: usize,
    /// Those that failed, and why.
    pub failures: Vec<(String, String)>,
    /// What came of each that was tried: why it failed, if it did.
    pub outcomes: Ghost<Seq<Option<Seq<char>>>>,
}

/// The libraries among those tried that failed, and why.
pub open spec fn failed_units(units: Seq<SplitUnit>, outcomes: Seq<Option<Seq<char>>>) -> Seq<(Seq<char>, Seq<char>)>
    decreases outcomes.len(),
{
    if outcomes.len() == 0 {
        Seq::empty()
    } else {
        let before = failed_units(units, outcomes.drop_last());
        match outcomes.last() {
            Some(why) => before.push((units[outcomes.len() - 1].unit@, why)),
            None => before,
        }
    }
}

proof fn lemma_failed_units(units: Seq<SplitUnit>, outcomes: Seq<Option<Seq<char>>>)
    ensures
        failed_units(units, outcomes).len() <= outcomes.len(),
    decreases outcomes.len(),
{
    if outcomes.len() > 0 {
        lemma_failed_units(units, outcomes.drop_last());
    }
}

/// What a list of failures holds.
pub open spec fn failure_facts(failures: Seq<(String, String)>) -> Seq<(Seq<char>, Seq<char>)> {
    Seq::new(failures.len(), |i: int| (failures[i].0@, failures[i].1@))
}

impl SplitRun {
    /// What holds at every step: the failures are those of the libraries tried, in
    /// order.
    pub open spec fn wf(self) -> bool {
        &&& self.done <= self.units@.len()
        &&& self.outcomes@.len() == self.done
        &&& failure_facts(self.failures@) == failed_units(self.units@, self.outcomes@)
    }

    /// Starts with every library untried.
    pub fn new(objects: &Objects, config_id: &str) -> (r: SplitRun)
        ensures
            r.wf(),
            r.done == 0,
            r.failures@.len() == 0,
            split_facts(r.units@) == plans_of(config_id@, lib_entries(*objects)),
    {
        let r = SplitRun {
            units: split_plan(objects, config_id),
            done: 0,
            failures: Vec::new(),
            outcomes: Ghost(Seq::empty()),
        };
        assert(failure_facts(r.failures@) =~= failed_units(r.units@, r.outcomes@));
        r
    }

    /// The library to try next; none where all were tried.
    pub fn current(&self) -> (r: Option<&SplitUnit>)
        ensures
            match r {
                Some(unit) => self.done < self.units@.len() && *unit == self.units@[self.done as int],
                None => self.done >= self.units@.len(),
            },
    {
        if self.done < self.units.len() {
            Some(&self.units[self.done])
        } else {
            None
        }
    }

    /// Records what came of the library that was next: why it failed, if it
    /// did. The run goes on with the one after it.
    pub fn record(&mut self, failure: Option<String>)
        requires
            old(self).wf(),
            old(self).done < old(self).units@.len(),
        ensures
            final(self).wf(),
            final(self).units == old(self).units,
            final(self).done == old(self).done + 1,
            final(self).outcomes@ == old(self).outcomes@.push(crate::text::opt_text(failure)),
            failure is None ==> final(self).failures == old(self).failures,
            failure is Some ==> failure_facts(final(self).failures@) == failure_facts(old(self).failures@).push(
                (old(self).units@[old(self).done as int].unit@, failure->0@),
            ),
    {
        assert(self.done < self.units.len());
        proof {
            let outcome = crate::text::opt_text(failure);
            let so_far = self.outcomes@;
            self.outcomes = Ghost(so_far.push(outcome));
            assert(self.outcomes@.drop_last() =~= so_far);
        }
        if let Some(why) = failure {
            let ghost before = failure_facts(self.failures@);
            let ghost reason = why@;
            let unit = self.units[self.done].unit.as_str().to_owned();
            let ghost name = unit@;
            self.failures.push((unit, why));
            assert(failure_facts(self.failures@) =~= before.push((name, reason)));
        }
        self.done = self.done + 1;
    }

    /// Sums the run up.
    pub fn summary(&self) -> (r: SplitSummary)
        requires
            self.wf(),
        ensures
            is_summary(r, self.units@.len(), self.failures@),
    {
        proof {
            lemma_failed_units(self.units@, self.outcomes@);
            assert(failure_facts(self.failures@).len() == self.failures@.len());
        }
        split_summary(self.units.len(), &self.failures)
    }
}

/// Over a whole run each library is tried once, in order, and the failures are
/// exactly those recorded: as many as there are, of the libraries they were
/// recorded for.
pub proof fn law_a_run_tries_every_library(run: SplitRun)
    requires
        run.wf(),
        run.done == run.units@.len(),
    ensures
        run.outcomes@.len() == run.units@.len(),
        failure_facts(run.failures@) == failed_units(run.units@, run.outcomes@),
        forall|i: int|
            0 <= i < run.units@.len() && (#[trigger] run.outcomes@[i]) is Some ==> failure_facts(
                run.failures@,
            ).contains((run.units@[i].unit@, run.outcomes@[i]->0)),
        forall|f: (Seq<char>, Seq<char>)| #[trigger]
            failure_facts(run.failures@).contains(f) ==> exists|i: int|
                0 <= i < run.units@.len() && #[trigger] run.outcomes@[i] == Some(f.1) && run.units@[i].unit@ == f.0,
{
    lemma_recorded(run.units@, run.outcomes@);
}

proof fn lemma_recorded(units: Seq<SplitUnit>, outcomes: Seq<Option<Seq<char>>>)
    requires
        outcomes.len() <= units.len(),
    ensures
        forall|i: int|
            0 <= i < outcomes.len() && (#[trigger] outcomes[i]) is Some ==> failed_units(units, outcomes).contains(
                (units[i].unit@, outcomes[i]->0),
            ),
        forall|f: (Seq<char>, Seq<char>)| #[trigger]
            failed_units(units, outcomes).contains(f) ==> exists|i: int|
                0 <= i < outcomes.len() && #[trigger] outcomes[i] == Some(f.1) && units[i].unit@ == f.0,
    decreases outcomes.len(),
{
    if outcomes.len() > 0 {
        let init = outcomes.drop_last();
        let n = init.len() as int;
        lemma_recorded(units, init);
        let before = failed_units(units, init);
        let all = failed_units(units, outcomes);
        assert forall|i: int| 0 <= i < outcomes.len() && (#[trigger] outcomes[i]) is Some implies all.contains(
            (units[i].unit@, outcomes[i]->0),
        ) by {
            let f = (units[i].unit@, outcomes[i]->0);
            if i < n {
                assert(init[i] == outcomes[i]);
                assert(before.contains(f));
                let k = choose|k: int| 0 <= k < before.len() && before[k] == f;
                assert(all[k] == f);
            } else {
                assert(all[before.len() as int] == f);
            }
        }
        assert forall|f: (Seq<char>, Seq<char>)| #[trigger] all.contains(f) implies exists|i: int|
            0 <= i < outcomes.len() && #[trigger] outcomes[i] == Some(f.1) && units[i].unit@ == f.0 by {
            let k = choose|k: int| 0 <= k < all.len() && all[k] == f;
            if k < before.len() {
                assert(before[k] == f);
                assert(before.contains(f));
                let i = choose|i: int| 0 <= i < init.len() && #[trigger] init[i] == Some(f.1) && units[i].unit@ == f.0;
                assert(outcomes[i] == Some(f.1));
            } else {
                assert(outcomes[n] == Some(f.1));
            }
        }
    }
}

/// What the stub of a source holds.
pub open spec fn stub_text(lib_name: Seq<char>) -> Seq<char> {
    "// "@ + lib_name + "\n"@ + "//\n"@
        + "// Unity build entrypoint. Include this module's source files here, e.g.:\n"@
        + "// #include \"quaternion.cpp\"\n"@
}

/// The stub written for a missing module entrypoint: a comment naming the module
/// (the library's name) and a commented example of the unity `#include` pattern.
/// All-comment, so a fresh stub is an empty translation unit that compiles to an
/// empty object.
pub fn stub_content(lib_name: &str) -> (r: String)
    ensures
        r@ == stub_text(lib_name@),
{
    let mut s = String::from_str("// ");
    s.append(lib_name);
    s.append("\n");
    s.append("//\n");
    s.append("// Unity build entrypoint. Include this module's source files here, e.g.:\n");
    s.append("// #include \"quaternion.cpp\"\n");
    s
}

/// A source that is to be there, and what its stub holds.
pub struct Stub {
    pub src: String,
    pub content: String,
}

/// What the stubs of a list hold.
pub open spec fn stub_facts(stubs: Seq<Stub>) -> Seq<(Seq<char>, Seq<char>)> {
    Seq::new(stubs.len(), |i: int| (stubs[i].src@, stubs[i].content@))
}

/// The stubs of a library's sources.
pub open spec fn lib_stubs(lib_name: Seq<char>, lib: LibEntry) -> Seq<(Seq<char>, Seq<char>)> {
    Seq::new(source_entries(lib.objects).len(), |j: int| (source_entries(lib.objects)[j].0, stub_text(lib_name)))
}

/// The stubs of the sources of the first `n` libraries.
pub open spec fn stubs_of(entries: Seq<(Seq<char>, LibEntry)>, n: nat) -> Seq<(Seq<char>, Seq<char>)>
    decreases n,
{
    if n == 0 || n > entries.len() {
        Seq::empty()
    } else {
        stubs_of(entries, (n - 1) as nat) + lib_stubs(entries[n - 1].0, entries[n - 1].1)
    }
}

/// Lists every source of every library with the stub that is written where it is
/// not there yet.
pub fn stub_list(objects: &Objects) -> (r: Vec<Stub>)
    ensures
        stub_facts(r@) == stubs_of(lib_entries(*objects), lib_entries(*objects).len()),
{
    let ghost entries = lib_entries(*objects);
    let mut out: Vec<Stub> = Vec::new();
    let n = lib_count(objects);
    let mut i: usize = 0;
    assert(stub_facts(out@) =~= Seq::empty());
    while i < n
        invariant
            i <= n,
            n == entries.len(),
            entries == lib_entries(*objects),
            stub_facts(out@) == stubs_of(entries, i as nat),
        decreases n - i,
    {
        if let Some((lib_name, lib)) = lib_at(objects, i) {
            assert(entries[i as int] == (lib_name@, *lib));
            let ghost before = stub_facts(out@);
            let ghost added = lib_stubs(lib_name@, *lib);
            let m = source_count(&lib.objects);
            let mut j: usize = 0;
            assert(before + added.take(0) =~= before);
            while j < m
                invariant
                    j <= m,
                    m == source_entries(lib.objects).len(),
                    added == lib_stubs(lib_name@, *lib),
                    stub_facts(out@) == before + added.take(j as int),
                decreases m - j,
            {
                if let Some((src, _)) = source_at(&lib.objects, j) {
                    let ghost was = stub_facts(out@);
                    let content = stub_content(lib_name.as_str());
                    out.push(Stub { src: src.as_str().to_owned(), content });
                    assert(stub_facts(out@) =~= was.push((src@, stub_text(lib_name@))));
                    assert(added.take(j + 1) =~= added.take(j as int).push(added[j as int]));
                    assert(was.push(added[j as int]) =~= before + added.take(j + 1));
                }
                j = j + 1;
            }
            assert(added.take(m as int) =~= added);
        }
        i = i + 1;
    }
    out
}

/// Whether creating a stub failed for this reason, or succeeded where there is
/// none.
pub open spec fn creation<E, C: Fn(&Stub) -> Result<(), E>>(
    create: C,
    stub: (Seq<char>, Seq<char>),
    failure: Option<E>,
) -> bool {
    exists|s: &Stub, r: Result<(), E>|
        (s.src@, s.content@) == stub && #[trigger] call_ensures(create, (s,), r) && match r {
            Ok(_) => failure is None,
            Err(e) => failure == Some(e),
        }
}

/// Whether the first stubs were gone through: of each source it was asked whether
/// it is there, and those that are not were created.
pub open spec fn is_scaffolding<E, X: Fn(&str) -> bool, C: Fn(&Stub) -> Result<(), E>>(
    stubs: Seq<(Seq<char>, Seq<char>)>,
    exists_at: X,
    create: C,
    there: Seq<bool>,
) -> bool {
    &&& there.len() <= stubs.len()
    &&& forall|i: int|
        0 <= i < there.len() ==> answered(exists_at, stubs[i].0, #[trigger] there[i]) && (!there[i] ==> creation(
            create,
            stubs[i],
            None::<E>,
        ))
}

/// The sources among the first stubs that were not there.
pub open spec fn absent_sources(stubs: Seq<(Seq<char>, Seq<char>)>, there: Seq<bool>) -> Seq<Seq<char>>
    decreases there.len(),
{
    if there.len() == 0 {
        Seq::empty()
    } else if there.last() {
        absent_sources(stubs, there.drop_last())
    } else {
        absent_sources(stubs, there.drop_last()).push(stubs[there.len() - 1].0)
    }
}

/// Creates the stub of every source that is not there yet, in order, and of no
/// other: never overwrites. Gives the sources created; the first that cannot be
/// ends it.
pub fn scaffold_sources<E, X: Fn(&str) -> bool, C: Fn(&Stub) -> Result<(), E>>(
    objects: &Objects,
    exists_at: X,
    create: C,
) -> (r: Result<Vec<String>, E>)
    requires
        forall|p: &str| call_requires(exists_at, (p,)),
        forall|k: int, s: &Stub|
            0 <= k < stubs_of(lib_entries(*objects), lib_entries(*objects).len()).len() && (s.src@, s.content@)
                == stubs_of(lib_entries(*objects), lib_entries(*objects).len())[k] && #[trigger] answered(
                exists_at,
                stubs_of(lib_entries(*objects), lib_entries(*objects).len())[k].0,
                false,
            ) ==> #[trigger] call_requires(create, (s,)),
    ensures
        ({
            let stubs = stubs_of(lib_entries(*objects), lib_entries(*objects).len());
            match r {
                Ok(created) => exists|there: Seq<bool>|
                    {
                        &&& #[trigger] is_scaffolding(stubs, exists_at, create, there)
                        &&& there.len() == stubs.len()
                        &&& texts(created@) == absent_sources(stubs, there)
                    },
                Err(e) => exists|there: Seq<bool>|
                    {
                        &&& #[trigger] is_scaffolding(stubs, exists_at, create, there)
                        &&& there.len() < stubs.len()
                        &&& answered(exists_at, stubs[there.len() as int].0, false)
                        &&& creation(create, stubs[there.len() as int], Some(e))
                    },
            }
        }),
{
    let list = stub_list(objects);
    let ghost stubs = stub_facts(list@);
    let ghost mut there: Seq<bool> = Seq::empty();
    let n = list.len();
    let mut created: Vec<String> = Vec::new();
    let mut i: usize = 0;
    assert(stubs.len() == n);
    assert(texts(created@) =~= Seq::empty());
    while i < n
        invariant
            i <= n,
            n == list@.len(),
            n == stubs.len(),
            stubs == stub_facts(list@),
            stubs == stubs_of(lib_entries(*objects), lib_entries(*objects).len()),
            forall|p: &str| call_requires(exists_at, (p,)),
            forall|k: int, s: &Stub|
                0 <= k < stubs.len() && (s.src@, s.content@) == stubs[k] && #[trigger] answered(
                    exists_at,
                    stubs[k].0,
                    false,
                ) ==> #[trigger] call_requires(create, (s,)),
            there.len() == i,
            is_scaffolding(stubs, exists_at, create, there),
            texts(created@) == absent_sources(stubs, there),
        decreases n - i,
    {
        let stub = &list[i];
        assert(stubs[i as int] == (stub.src@, stub.content@));
        let present = exists_at(stub.src.as_str());
        assert(answered(exists_at, stubs[i as int].0, present));
        let ghost before = there;
        if !present {
            match create(stub) {
                Ok(_) => {
                    assert(creation(create, stubs[i as int], None::<E>));
                    let ghost was = texts(created@);
                    created.push(stub.src.as_str().to_owned());
                    assert(texts(created@) =~= was.push(stub.src@));
                },
                Err(e) => {
                    assert(creation(create, stubs[i as int], Some(e)));
                    return Err(e);
                },
            }
        }
        proof {
            there = there.push(present);
            assert(there.drop_last() =~= before);
            assert forall|j: int| 0 <= j < there.len() implies answered(exists_at, stubs[j].0, #[trigger] there[j]) && (
            !there[j] ==> creation(create, stubs[j], None::<E>)) by {
                if j < before.len() {
                    assert(there[j] == before[j]);
                }
            }
        }
        i = i + 1;
    }
    Ok(created)
}

/// What the files hold when the first `n` stubs were gone through: a source that
/// is there stays as it is, and one that is not holds its stub.
pub open spec fn scaffolded(
    files: Map<Seq<char>, Seq<char>>,
    stubs: Seq<(Seq<char>, Seq<char>)>,
    n: nat,
) -> Map<Seq<char>, Seq<char>>
    decreases n,
{
    if n == 0 {
        files
    } else {
        let before = scaffolded(files, stubs, (n - 1) as nat);
        if before.contains_key(stubs[n - 1].0) {
            before
        } else {
            before.insert(stubs[n - 1].0, stubs[n - 1].1)
        }
    }
}

/// What is answered where the files are asked: whether each source is there when
/// its turn comes.
pub open spec fn answers(files: Map<Seq<char>, Seq<char>>, stubs: Seq<(Seq<char>, Seq<char>)>, n: nat) -> Seq<bool> {
    Seq::new(n, |i: int| scaffolded(files, stubs, i as nat).contains_key(stubs[i].0))
}

/// Scaffolding leaves every file that is there as it is, and gives each source
/// that is not there the stub of the first library that lists it.
pub proof fn law_scaffolding_never_overwrites(
    files: Map<Seq<char>, Seq<char>>,
    stubs: Seq<(Seq<char>, Seq<char>)>,
    n: nat,
)
    requires
        n <= stubs.len(),
    ensures
        forall|p: Seq<char>|
            #[trigger] files.contains_key(p) ==> scaffolded(files, stubs, n).contains_key(p) && scaffolded(
                files,
                stubs,
                n,
            )[p] == files[p],
        forall|i: int| 0 <= i < n ==> scaffolded(files, stubs, n).contains_key((#[trigger] stubs[i]).0),
        forall|i: int|
            0 <= i < n && !scaffolded(files, stubs, i as nat).contains_key((#[trigger] stubs[i]).0) ==> scaffolded(
                files,
                stubs,
                n,
            )[stubs[i].0] == stubs[i].1,
    decreases n,
{
    if n > 0 {
        law_scaffolding_never_overwrites(files, stubs, (n - 1) as nat);
    }
}

proof fn lemma_absent_sources(files: Map<Seq<char>, Seq<char>>, stubs: Seq<(Seq<char>, Seq<char>)>, n: nat)
    requires
        n <= stubs.len(),
        forall|i: int, j: int|
            #![trigger stubs[i], stubs[j]]
            0 <= i < j < stubs.len() ==> stubs[i].0 != stubs[j].0,
    ensures
        forall|p: Seq<char>|
            #[trigger] scaffolded(files, stubs, n).contains_key(p) ==> files.contains_key(p) || exists|i: int|
                0 <= i < n && (#[trigger] stubs[i]).0 == p,
    decreases n,
{
    if n > 0 {
        lemma_absent_sources(files, stubs, (n - 1) as nat);
        let now = scaffolded(files, stubs, n);
        let before = scaffolded(files, stubs, (n - 1) as nat);
        assert forall|p: Seq<char>| #[trigger] now.contains_key(p) implies files.contains_key(p) || exists|i: int|
            0 <= i < n && (#[trigger] stubs[i]).0 == p by {
            if before.contains_key(p) {
                if !files.contains_key(p) {
                    let i = choose|i: int| 0 <= i < n - 1 && (#[trigger] stubs[i]).0 == p;
                    assert(stubs[i].0 == p && i < n);
                }
            } else {
                assert(stubs[n - 1].0 == p);
            }
        }
    }
}

/// Where the sources differ, exactly those are created that were not there
/// before.
pub proof fn law_scaffolding_creates_what_is_missing(
    files: Map<Seq<char>, Seq<char>>,
    stubs: Seq<(Seq<char>, Seq<char>)>,
)
    requires
        forall|i: int, j: int|
            #![trigger stubs[i], stubs[j]]
            0 <= i < j < stubs.len() ==> stubs[i].0 != stubs[j].0,
    ensures
        answers(files, stubs, stubs.len()) == Seq::new(stubs.len(), |i: int| files.contains_key(stubs[i].0)),
        forall|i: int|
            0 <= i < stubs.len() && !files.contains_key((#[trigger] stubs[i]).0) ==> scaffolded(
                files,
                stubs,
                stubs.len(),
            )[stubs[i].0] == stubs[i].1,
{
    let n = stubs.len();
    law_scaffolding_never_overwrites(files, stubs, n);
    assert forall|i: int| 0 <= i < n implies scaffolded(files, stubs, i as nat).contains_key((#[trigger] stubs[i]).0)
        == files.contains_key(stubs[i].0) by {
        law_scaffolding_never_overwrites(files, stubs, i as nat);
        lemma_absent_sources(files, stubs, i as nat);
        let now = scaffolded(files, stubs, i as nat);
        if now.contains_key(stubs[i].0) && !files.contains_key(stubs[i].0) {
            let j = choose|j: int| 0 <= j < i && (#[trigger] stubs[j]).0 == stubs[i].0;
            assert(stubs[j].0 != stubs[i].0);
        }
        if files.contains_key(stubs[i].0) {
            assert(now.contains_key(stubs[i].0));
        }
    }
    assert(answers(files, stubs, n) =~= Seq::new(n, |i: int| files.contains_key(stubs[i].0))) by {
        assert forall|i: int| 0 <= i < n implies answers(files, stubs, n)[i] == files.contains_key(stubs[i].0) by {
            assert(scaffolded(files, stubs, i as nat).contains_key(stubs[i].0) == files.contains_key(stubs[i].0));
        }
    }
}

/// Scaffolding twice creates nothing more and changes nothing more.
pub proof fn law_scaffolding_again_creates_nothing(
    files: Map<Seq<char>, Seq<char>>,
    stubs: Seq<(Seq<char>, Seq<char>)>,
)
    ensures
        ({
            let after = scaffolded(files, stubs, stubs.len());
            &&& scaffolded(after, stubs, stubs.len()) == after
            &&& absent_sources(stubs, answers(after, stubs, stubs.len())) == Seq::<Seq<char>>::empty()
        }),
{
    let after = scaffolded(files, stubs, stubs.len());
    law_scaffolding_never_overwrites(files, stubs, stubs.len());
    lemma_nothing_missing(after, stubs, stubs.len());
}

proof fn lemma_nothing_missing(files: Map<Seq<char>, Seq<char>>, stubs: Seq<(Seq<char>, Seq<char>)>, n: nat)
    requires
        n <= stubs.len(),
        forall|i: int| 0 <= i < stubs.len() ==> files.contains_key((#[trigger] stubs[i]).0),
    ensures
        scaffolded(files, stubs, n) == files,
        absent_sources(stubs, answers(files, stubs, n)) == Seq::<Seq<char>>::empty(),
    decreases n,
{
    if n > 0 {
        lemma_nothing_missing(files, stubs, (n - 1) as nat);
        let now = answers(files, stubs, n);
        assert(files.contains_key(stubs[n - 1].0));
        assert(now.drop_last() =~= answers(files, stubs, (n - 1) as nat));
        assert(now.last());
    }
}

/// An original binary as it is on disk.
pub struct OrigFile {
    pub path: String,
    pub state: FileState,
}

/// What the verdicts of a list hold.
pub open spec fn verdict_facts(verdicts: Seq<Verdict>) -> Seq<VerdictFacts> {
    Seq::new(verdicts.len(), |i: int| verdicts[i]@)
}

/// What comes of checking the first `n` original binaries: the first that fails
/// ends it.
pub open spec fn orig_verdicts(
    hashes: Seq<(Seq<char>, Seq<char>)>,
    files: Seq<OrigFile>,
    n: nat,
) -> Seq<VerdictFacts>
    decreases n,
{
    if n == 0 || n > hashes.len() {
        Seq::empty()
    } else {
        let before = orig_verdicts(hashes, files, (n - 1) as nat);
        if before.len() > 0 && before.last() is Failed {
            before
        } else {
            before.push(hash_verdict(true, files[n - 1].path@, files[n - 1].state, hashes[n - 1].1))
        }
    }
}

proof fn lemma_verdicts_of_prefix(
    hashes: Seq<(Seq<char>, Seq<char>)>,
    files: Seq<OrigFile>,
    more: Seq<OrigFile>,
    n: nat,
)
    requires
        n <= files.len() <= more.len(),
        forall|i: int| 0 <= i < files.len() ==> #[trigger] more[i] == files[i],
    ensures
        orig_verdicts(hashes, more, n) == orig_verdicts(hashes, files, n),
    decreases n,
{
    if n > 0 {
        lemma_verdicts_of_prefix(hashes, files, more, (n - 1) as nat);
        assert(more[n - 1] == files[n - 1]);
    }
}

/// Whether this was read for the binary of a name.
pub open spec fn was_read<F: Fn(&str) -> OrigFile>(read: F, name: Seq<char>, file: OrigFile) -> bool {
    exists|n: &str| n@ == name && #[trigger] call_ensures(read, (n,), file)
}

/// Whether these files were read for the first binaries.
pub open spec fn were_read<F: Fn(&str) -> OrigFile>(
    read: F,
    hashes: Seq<(Seq<char>, Seq<char>)>,
    files: Seq<OrigFile>,
) -> bool {
    &&& files.len() <= hashes.len()
    &&& forall|i: int| 0 <= i < files.len() ==> was_read(read, hashes[i].0, #[trigger] files[i])
}

/// Checks the original binaries against their hashes, in order, each read when its
/// turn comes. The first that fails ends it, and its verdict is the last.
pub fn verify_orig<F: Fn(&str) -> OrigFile>(orig: &OrigManifest, read: F) -> (r: Vec<Verdict>)
    requires
        forall|name: &str| call_requires(read, (name,)),
    ensures
        ({
            let hashes = text_entries(orig.binaries);
            exists|files: Seq<OrigFile>|
                {
                    &&& #[trigger] were_read(read, hashes, files)
                    &&& files.len() == r@.len()
                    &&& verdict_facts(r@) == orig_verdicts(hashes, files, files.len())
                    &&& files.len() == hashes.len() || (r@.len() > 0 && verdict_facts(r@).last() is Failed)
                }
        }),
{
    let ghost hashes = text_entries(orig.binaries);
    let ghost mut files: Seq<OrigFile> = Seq::empty();
    let mut out: Vec<Verdict> = Vec::new();
    let n = text_count(&orig.binaries);
    let mut i: usize = 0;
    assert(verdict_facts(out@) =~= Seq::empty());
    while i < n
        invariant
            i <= n,
            n == hashes.len(),
            hashes == text_entries(orig.binaries),
            forall|name: &str| call_requires(read, (name,)),
            files.len() == i,
            out@.len() == i,
            were_read(read, hashes, files),
            verdict_facts(out@) == orig_verdicts(hashes, files, i as nat),
            forall|j: int| 0 <= j < out@.len() ==> !((#[trigger] verdict_facts(out@)[j]) is Failed),
        decreases n - i,
    {
        if let Some((name, hash)) = text_at(&orig.binaries, i) {
            let file = read(name.as_str());
            assert(was_read(read, hashes[i as int].0, file));
            let verdict = verify_hash(true, file.path.as_str(), &file.state, hash.as_str());
            let failed = match &verdict {
                Verdict::Failed(_) => true,
                _ => false,
            };
            let ghost before = verdict_facts(out@);
            let ghost read_before = files;
            let ghost v = verdict@;
            proof {
                files = files.push(file);
                lemma_verdicts_of_prefix(hashes, read_before, files, i as nat);
                assert forall|j: int| 0 <= j < files.len() implies was_read(read, hashes[j].0, #[trigger] files[j]) by {
                    if j < read_before.len() {
                        assert(files[j] == read_before[j]);
                    }
                }
                if before.len() > 0 {
                    assert(!(before[before.len() - 1] is Failed));
                }
            }
            out.push(verdict);
            assert(verdict_facts(out@) =~= before.push(v));
            if failed {
                assert(verdict_facts(out@).last() is Failed);
                assert(were_read(read, hashes, files));
                assert(verdict_facts(out@) == orig_verdicts(hashes, files, files.len()));
                return out;
            }
            proof {
                let now = verdict_facts(out@);
                assert forall|j: int| 0 <= j < out@.len() implies !((#[trigger] now[j]) is Failed) by {
                    if j < before.len() {
                        assert(!(before[j] is Failed));
                    }
                }
            }
        }
        i = i + 1;
    }
    out
}

/// The arguments that the unpacker is run with.
pub fn unpack_args(archive: &str, dir: &str) -> (r: Vec<String>)
    ensures
        texts(r@) == seq!["x"@, archive@, "-o"@ + dir@, "-y"@],
{
    let mut out = String::from_str("-o");
    out.append(dir);
    let mut v: Vec<String> = Vec::new();
    v.push("x".to_owned());
    v.push(archive.to_owned());
    v.push(out);
    v.push("-y".to_owned());
    assert(texts(v@) =~= seq!["x"@, archive@, "-o"@ + dir@, "-y"@]);
    v
}

/// Whether a line is a comment.
pub open spec fn is_comment(line: Seq<char>) -> bool {
    begins_with(line, "//"@)
}

proof fn lemma_comment_line(line: Seq<char>, rest: Seq<char>)
    requires
        !line.contains('\n'),
        is_comment(line),
        forall|i: int| 0 <= i < lines(rest).len() ==> is_comment(#[trigger] lines(rest)[i]),
    ensures
        forall|i: int|
            0 <= i < lines(line + "\n"@ + rest).len() ==> is_comment(#[trigger] lines(line + "\n"@ + rest)[i]),
{
    reveal_strlit("\n");
    reveal_strlit("//");
    let s = line + "\n"@ + rest;
    assert forall|j: int| 0 <= j < line.len() implies s[j] != '\n' by {
        assert(line.contains(line[j]));
    }
    lemma_first_of_is(s, '\n', line.len() as int);
    assert(s.take(line.len() as int) =~= line);
    assert(s.skip(line.len() as int + 1) =~= rest);
    let first = without_cr(line);
    assert(line.subrange(0, 2) == "//"@);
    assert(first.len() >= 2) by {
        if first.len() < 2 {
            assert(line[1] == line.subrange(0, 2)[1]);
            assert("//"@[1] == '/');
        }
    }
    assert(first.subrange(0, 2) =~= line.subrange(0, 2));
    assert(lines(s) =~= seq![first] + lines(rest));
    assert forall|i: int| 0 <= i < lines(s).len() implies is_comment(#[trigger] lines(s)[i]) by {
        if i > 0 {
            assert(lines(s)[i] == lines(rest)[i - 1]);
        }
    }
}

/// A stub is all comment, so it compiles to nothing, where the library's name is
/// on one line.
pub proof fn law_a_stub_is_all_comment(lib_name: Seq<char>)
    requires
        !lib_name.contains('\n'),
    ensures
        forall|i: int|
            0 <= i < lines(stub_text(lib_name)).len() ==> is_comment(#[trigger] lines(stub_text(lib_name))[i]),
{
    reveal_strlit("//");
    reveal_strlit("// ");
    reveal_strlit("\n");
    reveal_strlit("//\n");
    reveal_strlit("// Unity build entrypoint. Include this module's source files here, e.g.:\n");
    reveal_strlit("// #include \"quaternion.cpp\"\n");
    let last = "// #include \"quaternion.cpp\"\n"@;
    let third = "// Unity build entrypoint. Include this module's source files here, e.g.:\n"@;
    let none = Seq::<char>::empty();
    let fourth = last.drop_last();
    assert(last =~= fourth + "\n"@ + none);
    assert(fourth.subrange(0, 2) =~= "//"@);
    assert(lines(none) =~= Seq::empty());
    lemma_comment_line(fourth, none);
    let unity = third.drop_last();
    assert(third + last =~= unity + "\n"@ + last);
    assert(unity.subrange(0, 2) =~= "//"@);
    lemma_comment_line(unity, last);
    assert("//\n"@ + (third + last) =~= "//"@ + "\n"@ + (third + last));
    assert("//"@.subrange(0, 2) =~= "//"@);
    lemma_comment_line("//"@, third + last);
    let first = "// "@ + lib_name;
    assert(first.subrange(0, 2) =~= "//"@);
    assert(!first.contains('\n')) by {
        if first.contains('\n') {
            let k = choose|k: int| 0 <= k < first.len() && first[k] == '\n';
            assert(lib_name[k - 3] == '\n');
        }
    }
    lemma_comment_line(first, "//\n"@ + (third + last));
    assert(stub_text(lib_name) =~= first + "\n"@ + ("//\n"@ + (third + last)));
}

/// Checking the original binaries ends in a failure, or verifies every one of
/// them.
pub proof fn law_orig_is_verified_or_refused(hashes: Seq<(Seq<char>, Seq<char>)>, files: Seq<OrigFile>, n: nat)
    requires
        n <= hashes.len(),
    ensures
        ({
            let verdicts = orig_verdicts(hashes, files, n);
            ||| verdicts.len() > 0 && verdicts.last() is Failed
            ||| verdicts.len() == n && forall|i: int| 0 <= i < n ==> #[trigger] verdicts[i] is Verified
        }),
    decreases n,
{
    if n > 0 {
        law_orig_is_verified_or_refused(hashes, files, (n - 1) as nat);
    }
}

/// A library is delinked from its own export and database, from the binary it
/// names, or the original of its name where it names none, into the directory
/// under which it is delinked.
pub proof fn law_every_library_is_planned(config_id: Seq<char>, entries: Seq<(Seq<char>, LibEntry)>, i: int)
    requires
        0 <= i < entries.len(),
    ensures
        plans_of(config_id, entries).len() == entries.len(),
        ({
            let (unit, plan) = plans_of(config_id, entries)[i];
            let lib = entries[i].1;
            &&& unit == entries[i].0
            &&& plan == plan_for(config_id, unit, lib)
            &&& plan.json_in == "config/"@ + config_id + "/delink/"@ + unit + ".delink.json"@
            &&& plan.idapro == lib.idapro@
            &&& lib.binary is Some ==> plan.binary == lib.binary->0@
            &&& lib.binary is None ==> plan.binary == "orig/"@ + config_id + "/"@ + unit
            &&& lib.delink is Some ==> plan.outdir == "build/"@ + config_id + "/delink/"@ + lib.delink->0@
            &&& lib.delink is None ==> plan.outdir == "build/"@ + config_id + "/delink/"@ + unit
        }),
{
}

/// A library can be delinked just where its export, its database and its binary
/// are there; otherwise the first of these that is not is told.
pub proof fn law_the_first_missing_input_is_told(
    plan: PlanFacts,
    has_export: bool,
    has_idapro: bool,
    has_binary: bool,
)
    ensures
        missing_input_text(plan, has_export, has_idapro, has_binary) is None <==> has_export && has_idapro
            && has_binary,
        !has_export ==> missing_input_text(plan, has_export, has_idapro, has_binary) == Some(
            "missing export "@ + plan.json_in,
        ),
        has_export && !has_idapro ==> missing_input_text(plan, has_export, has_idapro, has_binary) == Some(
            "missing idapro "@ + plan.idapro,
        ),
        has_export && has_idapro && !has_binary ==> missing_input_text(plan, has_export, has_idapro, has_binary)
            == Some("missing binary "@ + plan.binary),
{
}

/// A summary tells how many libraries succeeded out of how many, and, below the
/// number of the failures, of each the library and why, in their order.
pub proof fn law_a_summary_tells_every_failure(r: SplitSummary, total: nat, failures: Seq<(String, String)>, i: int)
    requires
        is_summary(r, total, failures),
        failures.len() <= total,
    ensures
        r.info@ == "split phase: "@ + digits((total - failures.len()) as nat, 10) + "/"@ + digits(total, 10)
            + " libraries ok"@,
        r.errors@.len() == if failures.len() == 0 {
            0
        } else {
            failures.len() + 1
        },
        failures.len() > 0 ==> r.errors@[0]@ == digits(failures.len(), 10) + " failures:"@,
        0 <= i < failures.len() ==> r.errors@[i + 1]@ == "  "@ + failures[i].0@ + ": "@ + failures[i].1@,
{
    assert(texts(r.errors@).len() == r.errors@.len());
    if failures.len() > 0 {
        assert(texts(r.errors@)[0] == r.errors@[0]@);
        if 0 <= i < failures.len() {
            assert(texts(r.errors@)[i + 1] == r.errors@[i + 1]@);
        }
    }
}

/// The failures are those of the libraries that failed, in the order in which they
/// were tried, each with its reason. Their places are given.
pub proof fn law_failures_are_recorded_in_order(
    units: Seq<SplitUnit>,
    outcomes: Seq<Option<Seq<char>>>,
) -> (order: Seq<int>)
    ensures
        selects(order, outcomes.len() as int, |i: int| outcomes[i] is Some),
        failed_units(units, outcomes).len() == order.len(),
        forall|k: int|
            0 <= k < order.len() ==> #[trigger] failed_units(units, outcomes)[k] == (
                units[order[k]].unit@,
                outcomes[order[k]]->0,
            ),
    decreases outcomes.len(),
{
    let wanted = |i: int| outcomes[i] is Some;
    if outcomes.len() == 0 {
        Seq::empty()
    } else {
        let init = outcomes.drop_last();
        let n = init.len() as int;
        let before = law_failures_are_recorded_in_order(units, init);
        assert(selects(before, n, wanted)) by {
            assert forall|p: int| 0 <= p < n && #[trigger] wanted(p) implies before.contains(p) by {
                let f = |i: int| init[i] is Some;
                assert(f(p));
            }
            assert forall|a: int| 0 <= a < before.len() implies 0 <= #[trigger] before[a] < n && wanted(before[a]) by {
                let f = |i: int| init[i] is Some;
                assert(f(before[a]));
            }
        }
        lemma_selects_more(before, n, wanted);
        let was = failed_units(units, init);
        assert forall|k: int| 0 <= k < before.len() implies was[k] == (
            units[(#[trigger] before[k])].unit@,
            outcomes[before[k]]->0,
        ) by {
            assert(was[k] == (units[before[k]].unit@, init[before[k]]->0));
        }
        if wanted(n) {
            before.push(n)
        } else {
            before
        }
    }
}

/// Every source of every library has its stub, in their order, which names the
/// library of the source on its first line.
pub proof fn law_every_source_has_its_stub(entries: Seq<(Seq<char>, LibEntry)>, n: nat)
    requires
        n <= entries.len(),
    ensures
        stubs_of(entries, n).len() == source_places(entries, n).len(),
        forall|a: int|
            0 <= a < source_places(entries, n).len() ==> {
                let (src, content) = #[trigger] stubs_of(entries, n)[a];
                let (i, j) = source_places(entries, n)[a];
                &&& src == source_entries(entries[i].1.objects)[j].0
                &&& begins_with(content, "// "@ + entries[i].0 + "\n"@)
                &&& content == stub_text(entries[i].0)
            },
    decreases n,
{
    if n > 0 {
        let m = (n - 1) as nat;
        law_every_source_has_its_stub(entries, m);
        let before = stubs_of(entries, m);
        let all = stubs_of(entries, n);
        let places = source_places(entries, m);
        assert forall|a: int| 0 <= a < source_places(entries, n).len() implies {
            let (src, content) = #[trigger] all[a];
            let (i, j) = source_places(entries, n)[a];
            &&& src == source_entries(entries[i].1.objects)[j].0
            &&& begins_with(content, "// "@ + entries[i].0 + "\n"@)
            &&& content == stub_text(entries[i].0)
        } by {
            if a < before.len() {
                assert(all[a] == before[a]);
                assert(source_places(entries, n)[a] == places[a]);
            } else {
                let name = entries[n - 1].0;
                let text = stub_text(name);
                let first = "// "@ + name + "\n"@;
                assert(text.subrange(0, first.len() as int) =~= first);
            }
        }
    }
}

/// The sources created are exactly those that were not there, in their order.
/// Their places are given.
pub proof fn law_absent_sources_are_created(
    stubs: Seq<(Seq<char>, Seq<char>)>,
    there: Seq<bool>,
) -> (order: Seq<int>)
    ensures
        selects(order, there.len() as int, |i: int| !there[i]),
        absent_sources(stubs, there).len() == order.len(),
        forall|k: int| 0 <= k < order.len() ==> #[trigger] absent_sources(stubs, there)[k] == stubs[order[k]].0,
    decreases there.len(),
{
    let wanted = |i: int| !there[i];
    if there.len() == 0 {
        Seq::empty()
    } else {
        let init = there.drop_last();
        let n = init.len() as int;
        let before = law_absent_sources_are_created(stubs, init);
        assert(selects(before, n, wanted)) by {
            assert forall|p: int| 0 <= p < n && #[trigger] wanted(p) implies before.contains(p) by {
                let f = |i: int| !init[i];
                assert(f(p));
            }
            assert forall|a: int| 0 <= a < before.len() implies 0 <= #[trigger] before[a] < n && wanted(before[a]) by {
                let f = |i: int| !init[i];
                assert(f(before[a]));
            }
        }
        lemma_selects_more(before, n, wanted);
        if wanted(n) {
            before.push(n)
        } else {
            before
        }
    }
}

/// Each original binary is checked as a required file against the hash of its own
/// name, in their order, up to the first that fails.
pub proof fn law_each_binary_is_checked_against_its_hash(
    hashes: Seq<(Seq<char>, Seq<char>)>,
    files: Seq<OrigFile>,
    n: nat,
    i: int,
)
    requires
        n <= hashes.len(),
        0 <= i < orig_verdicts(hashes, files, n).len(),
    ensures
        orig_verdicts(hashes, files, n).len() <= n,
        orig_verdicts(hashes, files, n)[i] == hash_verdict(true, files[i].path@, files[i].state, hashes[i].1),
        i < orig_verdicts(hashes, files, n).len() - 1 ==> !(orig_verdicts(hashes, files, n)[i] is Failed),
        orig_verdicts(hashes, files, n).len() < n ==> orig_verdicts(hashes, files, n).last() is Failed,
    decreases n,
{
    if n > 0 {
        lemma_checked(hashes, files, n, i);
    }
}

proof fn lemma_checked(hashes: Seq<(Seq<char>, Seq<char>)>, files: Seq<OrigFile>, n: nat, i: int)
    requires
        n <= hashes.len(),
    ensures
        orig_verdicts(hashes, files, n).len() <= n,
        orig_verdicts(hashes, files, n).len() < n ==> orig_verdicts(hashes, files, n).len() > 0 && orig_verdicts(
            hashes,
            files,
            n,
        ).last() is Failed,
        0 <= i < orig_verdicts(hashes, files, n).len() ==> orig_verdicts(hashes, files, n)[i] == hash_verdict(
            true,
            files[i].path@,
            files[i].state,
            hashes[i].1,
        ),
        0 <= i < orig_verdicts(hashes, files, n).len() - 1 ==> !(orig_verdicts(hashes, files, n)[i] is Failed),
    decreases n,
{
    if n > 0 {
        lemma_checked(hashes, files, (n - 1) as nat, i);
        let before = orig_verdicts(hashes, files, (n - 1) as nat);
        if before.len() > 0 && i == before.len() - 1 {
            assert(before[i] == before.last());
        }
    }
}

/// A stub reads four lines: the library's name, an empty comment, what to do, and
/// an example of it, all behind `//`.
pub proof fn law_a_stub_reads_its_four_lines(lib_name: Seq<char>)
    ensures
        stub_text(lib_name) == as_lines(
            seq![
                "// "@ + lib_name,
                "//"@,
                "// Unity build entrypoint. Include this module's source files here, e.g.:"@,
                "// #include \"quaternion.cpp\""@,
            ],
        ),
{
    reveal_strlit("//\n");
    reveal_strlit("//");
    reveal_strlit("\n");
    reveal_strlit("// Unity build entrypoint. Include this module's source files here, e.g.:");
    reveal_strlit("// Unity build entrypoint. Include this module's source files here, e.g.:\n");
    reveal_strlit("// #include \"quaternion.cpp\"");
    reveal_strlit("// #include \"quaternion.cpp\"\n");
    let none = Seq::<Seq<char>>::empty();
    let a = "// "@ + lib_name;
    let c = "// Unity build entrypoint. Include this module's source files here, e.g.:"@;
    let d = "// #include \"quaternion.cpp\""@;
    lemma_as_lines_more(none, a);
    lemma_as_lines_more(none.push(a), "//"@);
    lemma_as_lines_more(none.push(a).push("//"@), c);
    lemma_as_lines_more(none.push(a).push("//"@).push(c), d);
    assert(seq![a, "//"@, c, d] =~= none.push(a).push("//"@).push(c).push(d));
    assert("//\n"@ =~= "//"@ + "\n"@);
    assert(c + "\n"@ =~= "// Unity build entrypoint. Include this module's source files here, e.g.:\n"@);
    assert(d + "\n"@ =~= "// #include \"quaternion.cpp\"\n"@);
    assert(as_lines(none.push(a)) =~= a + "\n"@);
    assert(as_lines(none.push(a).push("//"@)) =~= a + "\n"@ + "//\n"@);
    assert(as_lines(none.push(a).push("//"@).push(c)) =~= a + "\n"@ + "//\n"@ + (c + "\n"@));
    assert(as_lines(none.push(a).push("//"@).push(c).push(d)) =~= a + "\n"@ + "//\n"@ + (c + "\n"@) + (d + "\n"@));
}

/// The first name that is found on the path decides, and nothing else does: where
/// a search gives the same each time, the tool is what is found under that name.
pub proof fn law_the_first_name_on_the_path_decides<
    P,
    E,
    L: Fn(&str) -> Option<P>,
    X: Fn(&str) -> bool,
    D: FnOnce(&str) -> Result<(), E>,
>(
    names: Seq<Seq<char>>,
    fixed_path: Seq<char>,
    on_miss: ToolMiss,
    lookup: L,
    exists_at: X,
    download: D,
    r: Result<ToolPath<P>, ToolError<E>>,
    k: int,
    path: P,
)
    requires
        is_resolution(names, fixed_path, on_miss, lookup, exists_at, download, r),
        forall|name: Seq<char>, a: Option<P>, b: Option<P>|
            #[trigger] looked_up(lookup, name, a) && #[trigger] looked_up(lookup, name, b) ==> a == b,
        0 <= k < names.len(),
        looked_up(lookup, names[k], Some(path)),
        forall|j: int| 0 <= j < k ==> looked_up(lookup, #[trigger] names[j], None::<P>),
    ensures
        match r {
            Ok(ToolPath::Found(at, found)) => at == k && found == path,
            _ => false,
        },
{
    match r {
        Ok(ToolPath::Found(at, found)) => {
            if at < k {
                assert(looked_up(lookup, names[at as int], None::<P>));
            } else if at > k {
                assert(looked_up(lookup, names[k], None::<P>));
            }
        },
        _ => {
            if none_found(lookup, names, names.len() as int) {
                assert(looked_up(lookup, names[k], None::<P>));
            }
        },
    }
}

/// A tool that is not on the path is fetched to its fixed place where that is
/// asked for, and a failure to do so is told; otherwise it must already stand
/// there, and is told as missing where it does not.
pub proof fn law_a_tool_off_the_path_stands_at_its_fixed_place<
    P,
    E,
    L: Fn(&str) -> Option<P>,
    X: Fn(&str) -> bool,
    D: FnOnce(&str) -> Result<(), E>,
>(
    names: Seq<Seq<char>>,
    fixed_path: Seq<char>,
    on_miss: ToolMiss,
    lookup: L,
    exists_at: X,
    download: D,
    r: Result<ToolPath<P>, ToolError<E>>,
)
    requires
        is_resolution(names, fixed_path, on_miss, lookup, exists_at, download, r),
        forall|name: Seq<char>, a: Option<P>, b: Option<P>|
            #[trigger] looked_up(lookup, name, a) && #[trigger] looked_up(lookup, name, b) ==> a == b,
        forall|j: int| 0 <= j < names.len() ==> looked_up(lookup, #[trigger] names[j], None::<P>),
    ensures
        match (on_miss, r) {
            (_, Ok(ToolPath::Overridden(_))) => false,
            (_, Ok(ToolPath::Found(_, _))) => false,
            (ToolMiss::Download, Ok(ToolPath::Fixed(path))) => path@ == fixed_path && downloaded(
                download,
                fixed_path,
                None::<E>,
            ),
            (ToolMiss::Download, Err(ToolError::Download(e))) => downloaded(download, fixed_path, Some(e)),
            (ToolMiss::Download, Err(ToolError::NotBootstrapped(_))) => false,
            (ToolMiss::RequireBootstrapped, Ok(ToolPath::Fixed(path))) => path@ == fixed_path && answered(
                exists_at,
                fixed_path,
                true,
            ),
            (ToolMiss::RequireBootstrapped, Err(ToolError::NotBootstrapped(message))) => answered(
                exists_at,
                fixed_path,
                false,
            ) && message@ == names[0] + " not found on PATH or at "@ + fixed_path
                + "; run `flboot bootstrap` first"@,
            (ToolMiss::RequireBootstrapped, Err(ToolError::Download(_))) => false,
        },
{
    match r {
        Ok(ToolPath::Found(at, found)) => {
            assert(looked_up(lookup, names[at as int], None::<P>));
            assert(looked_up(lookup, names[at as int], Some(found)));
        },
        _ => {},
    }
}

/// Where the user says where a tool is, it is there, whatever else is found.
pub proof fn law_the_users_word_counts<
    P,
    E,
    L: Fn(&str) -> Option<P>,
    X: Fn(&str) -> bool,
    D: FnOnce(&str) -> Result<(), E>,
>(
    tool: BinaryTool,
    path: Seq<char>,
    platform: Platform,
    on_miss: ToolMiss,
    lookup: L,
    exists_at: X,
    download: D,
    r: Result<ToolPath<P>, ToolError<E>>,
)
    ensures
        is_binary_resolution(tool, Some(path), platform, on_miss, lookup, exists_at, download, r) ==> match r {
            Ok(ToolPath::Overridden(p)) => p@ == path,
            _ => false,
        },
        is_binary_resolution(tool, None, platform, on_miss, lookup, exists_at, download, r) <==> is_resolution(
            texts(tool.path_names@),
            (match platform {
                Platform::Windows => tool.windows.dest@,
                Platform::Linux => tool.linux.dest@,
            }),
            on_miss,
            lookup,
            exists_at,
            download,
            r,
        ),
{
}

/// Of every source that was gone through it was asked whether it is there, and
/// just one that is not was created, with its own stub.
pub proof fn law_a_source_that_is_not_there_is_created<E, X: Fn(&str) -> bool, C: Fn(&Stub) -> Result<(), E>>(
    stubs: Seq<(Seq<char>, Seq<char>)>,
    exists_at: X,
    create: C,
    there: Seq<bool>,
    i: int,
)
    requires
        is_scaffolding(stubs, exists_at, create, there),
        0 <= i < there.len(),
    ensures
        i < stubs.len(),
        exists|p: &str| p@ == stubs[i].0 && #[trigger] call_ensures(exists_at, (p,), there[i]),
        !there[i] ==> exists|s: &Stub, r: Result<(), E>|
            #[trigger] call_ensures(create, (s,), r) && r is Ok && s.src@ == stubs[i].0 && s.content@ == stubs[i].1,
{
    assert(answered(exists_at, stubs[i].0, there[i]));
    if !there[i] {
        assert(creation(create, stubs[i], None::<E>));
        let (s, r) = choose|s: &Stub, r: Result<(), E>|
            (s.src@, s.content@) == stubs[i] && #[trigger] call_ensures(create, (s,), r) && match r {
                Ok(_) => true,
                Err(e) => None::<E> == Some(e),
            };
        assert(call_ensures(create, (s,), r) && r is Ok);
    }
}

/// Each original binary is read by its own name.
pub proof fn law_each_binary_is_read_by_its_name<F: Fn(&str) -> OrigFile>(
    read: F,
    hashes: Seq<(Seq<char>, Seq<char>)>,
    files: Seq<OrigFile>,
    i: int,
)
    requires
        were_read(read, hashes, files),
        0 <= i < files.len(),
    ensures
        i < hashes.len(),
        exists|name: &str| name@ == hashes[i].0 && #[trigger] call_ensures(read, (name,), files[i]),
{
    assert(was_read(read, hashes[i].0, files[i]));
}

} // verus!
