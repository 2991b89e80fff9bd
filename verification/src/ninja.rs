//! The build files: one compile step per source, for ninja and for tools that
//! read compile commands.
use vstd::prelude::*;

use crate::codegen::{forward, get_target_path, lib_units, target_path, to_forward_path, units_of};
use crate::dev::{strip_arg_quotes, unquoted};
use crate::flags::{
    chain_ends, cxx_flags_for, flag_chain_ends, flags_for, get_cxx_flags_merged, get_flags,
    law_merged_flags_drop_nothing, opt_flag_entries, UnknownFlags, SOURCE_ROOT,
};
use crate::maps::{
    flag_entries, lib_at, lib_count, lib_entries, source_at, source_count, source_entries, source_places,
};
use crate::model::{Config, LibEntry, Objects};
use crate::scan::{
    is_c, is_c_source, is_simple_path, law_a_name_has_the_extension_behind_its_last_dot, path_ext,
};
use crate::text::{
    as_lines, begins_with, ends_with, join_texts, joined, lemma_as_lines_more, lemma_joined_with_nothing, lowercase,
    text_ends_with, texts, to_lower,
};

verus! {

/// Whether a flag tells of a source that it is C, where its path has one extension
/// on every platform.
pub open spec fn tells_of(src: Seq<char>, c_source: bool) -> bool {
    is_simple_path(src) ==> c_source == is_c(path_ext(src))
}

/// What is known of a source besides its path: whether it is C, and the local
/// files it pulls in.
pub struct SourceInput {
    pub c_source: bool,
    pub deps: Vec<String>,
}

impl SourceInput {
    /// A source that pulls in the given files, C by its extension.
    pub fn of(src: &str, deps: Vec<String>) -> (r: SourceInput)
        ensures
            tells_of(src@, r.c_source),
            r.deps == deps,
    {
        SourceInput { c_source: is_c_source(src), deps }
    }
}

/// The C compiler: the configured one, or the C++ compiler.
pub open spec fn c_compiler(config: Config) -> Seq<char> {
    match config.compiler_c {
        Some(c) => c@,
        None => config.compiler@,
    }
}

/// Whether the compiler is Microsoft's.
pub open spec fn is_msvc(config: Config) -> bool {
    ends_with(lowercase(config.compiler@), "cl.exe"@)
}

fn c_compiler_of(config: &Config) -> (r: &str)
    ensures
        r@ == c_compiler(*config),
{
    match &config.compiler_c {
        Some(c) => c.as_str(),
        None => config.compiler.as_str(),
    }
}

fn uses_msvc(config: &Config) -> (r: bool)
    ensures
        r == is_msvc(*config),
{
    text_ends_with(to_lower(config.compiler.as_str()).as_str(), "cl.exe")
}

/// The C flags and the C++ flags of a library, or the name of a set of flags
/// that is not there.
pub open spec fn flags_of(config: Config, lib: LibEntry) -> Result<(Seq<Seq<char>>, Seq<Seq<char>>), Seq<char>> {
    let cflags = flag_entries(config.cflags);
    let cxxflags = opt_flag_entries(config.cxxflags);
    match flags_for(cflags, lib.cflags@, config.compiler_root@, config.sdk_root@) {
        Err(e) => Err(e),
        Ok(c) => match cxx_flags_for(cflags, cxxflags, lib.cflags@, config.compiler_root@, config.sdk_root@) {
            Err(e) => Err(e),
            Ok(cxx) => Ok((c, cxx)),
        },
    }
}

/// Whether the chains of flag sets that a library names end.
pub open spec fn lib_flags_end(config: Config, lib: LibEntry) -> bool {
    &&& chain_ends(flag_entries(config.cflags), lib.cflags@)
    &&& config.cxxflags is Some ==> chain_ends(flag_entries(config.cxxflags->0), lib.cflags@)
}

/// Whether the chains of flag sets that the libraries name all end.
pub open spec fn flags_end(config: Config, entries: Seq<(Seq<char>, LibEntry)>) -> bool {
    forall|i: int| 0 <= i < entries.len() ==> lib_flags_end(config, (#[trigger] entries[i]).1)
}

/// Tells whether the chains of flag sets that the libraries name all end.
pub fn all_flags_end(config: &Config, objects: &Objects) -> (r: bool)
    ensures
        r == flags_end(*config, lib_entries(*objects)),
{
    let ghost entries = lib_entries(*objects);
    let n = lib_count(objects);
    let mut i: usize = 0;
    while i < n
        invariant
            i <= n,
            n == entries.len(),
            entries == lib_entries(*objects),
            forall|j: int| 0 <= j < i ==> lib_flags_end(*config, (#[trigger] entries[j]).1),
        decreases n - i,
    {
        if let Some((_, lib)) = lib_at(objects, i) {
            assert(entries[i as int].1 == *lib);
            if !flag_chain_ends(lib.cflags.as_str(), &config.cflags) {
                return false;
            }
            if let Some(cxx) = &config.cxxflags {
                if !flag_chain_ends(lib.cflags.as_str(), cxx) {
                    return false;
                }
            }
        }
        i = i + 1;
    }
    true
}

fn lib_flags(config: &Config, lib: &LibEntry) -> (r: Result<(Vec<String>, Vec<String>), UnknownFlags>)
    requires
        lib_flags_end(*config, *lib),
    ensures
        match flags_of(*config, *lib) {
            Ok(flags) => r is Ok && (texts(r->Ok_0.0@), texts(r->Ok_0.1@)) == flags,
            Err(name) => r is Err && r->Err_0.name@ == name,
        },
{
    let key = lib.cflags.as_str();
    let c = match get_flags(key, &config.cflags, config.compiler_root.as_str(), config.sdk_root.as_str()) {
        Ok(flags) => flags,
        Err(e) => return Err(e),
    };
    match get_cxx_flags_merged(
        key,
        &config.cflags,
        config.cxxflags.as_ref(),
        config.compiler_root.as_str(),
        config.sdk_root.as_str(),
    ) {
        Ok(cxx) => Ok((c, cxx)),
        Err(e) => Err(e),
    }
}

/// The compile rules for Microsoft's compiler.
pub const MSVC_RULES: &'static str = "rule compile_c\n\
    \x20 command = $cc $cflags /c $in \"/Fo$out\"\n\
    \x20 description = Compiling $in\n\n\
    rule compile_cxx\n\
    \x20 command = $cxx $cxxflags /c $in \"/Fo$out\"\n\
    \x20 description = Compiling $in\n\n";

/// The compile rules for any other compiler.
pub const PORTABLE_RULES: &'static str = "rule compile_c\n\
    \x20 command = $cc $cflags -c $in -o $out\n\
    \x20 description = Compiling $in\n\n\
    rule compile_cxx\n\
    \x20 command = $cxx $cxxflags -c $in -o $out\n\
    \x20 description = Compiling $in\n\n";

/// The compilers and the compile rules.
pub open spec fn ninja_head(cc: Seq<char>, cxx: Seq<char>, msvc: bool) -> Seq<char> {
    "cc = "@ + cc + "\n\ncxx = "@ + cxx + "\n\n"@ + if msvc {
        MSVC_RULES@
    } else {
        PORTABLE_RULES@
    }
}

fn render_head(cc: &str, cxx: &str, msvc: bool) -> (out: String)
    ensures
        out@ == ninja_head(cc@, cxx@, msvc),
{
    let mut out = String::from_str("cc = ");
    out.append(cc);
    out.append("\n\ncxx = ");
    out.append(cxx);
    out.append("\n\n");
    if msvc {
        out.append(MSVC_RULES);
    } else {
        out.append(PORTABLE_RULES);
    }
    out
}

/// A source path from the source root.
pub open spec fn rooted(src: Seq<char>) -> Seq<char> {
    forward(SOURCE_ROOT@ + "/"@ + src)
}

fn root_path(src: &str) -> (r: String)
    ensures
        r@ == rooted(src@),
{
    let mut s = String::from_str(SOURCE_ROOT);
    s.append("/");
    s.append(src);
    to_forward_path(s.as_str())
}

/// The files that a build step waits for besides its source.
pub open spec fn rooted_all(deps: Seq<Seq<char>>) -> Seq<Seq<char>> {
    Seq::new(deps.len(), |i: int| rooted(deps[i]))
}

fn root_all(deps: &Vec<String>) -> (r: Vec<String>)
    ensures
        texts(r@) == rooted_all(texts(deps@)),
{
    let n = deps.len();
    let mut out: Vec<String> = Vec::new();
    let mut i: usize = 0;
    while i < n
        invariant
            i <= n,
            n == deps@.len(),
            out@.len() == i,
            forall|j: int| 0 <= j < i ==> (#[trigger] out@[j])@ == rooted(deps@[j]@),
        decreases n - i,
    {
        out.push(root_path(deps[i].as_str()));
        i = i + 1;
    }
    assert(texts(out@) =~= rooted_all(texts(deps@)));
    out
}

/// What a build step waits for besides its source.
pub open spec fn implicit_inputs(deps: Seq<Seq<char>>) -> Seq<char> {
    if deps.len() == 0 {
        Seq::empty()
    } else {
        " | "@ + joined(rooted_all(deps), " "@)
    }
}

/// The build step for a source.
pub open spec fn build_step(
    obj: Seq<char>,
    src: Seq<char>,
    input: SourceInput,
    c_flags: Seq<Seq<char>>,
    cxx_flags: Seq<Seq<char>>,
) -> Seq<char> {
    let rule = if input.c_source {
        ": compile_c "@
    } else {
        ": compile_cxx "@
    };
    let var = if input.c_source {
        "\n  cflags = "@
    } else {
        "\n  cxxflags = "@
    };
    let flags = if input.c_source {
        c_flags
    } else {
        cxx_flags
    };
    "build "@ + obj + rule + rooted(src) + implicit_inputs(texts(input.deps@)) + var + joined(flags, " "@) + "\n\n"@
}

fn render_step(
    obj: &str,
    src: &str,
    input: &SourceInput,
    c_flags: &Vec<String>,
    cxx_flags: &Vec<String>,
) -> (out: String)
    ensures
        out@ == build_step(obj@, src@, *input, texts(c_flags@), texts(cxx_flags@)),
{
    let mut waits = String::new();
    if input.deps.len() > 0 {
        waits = String::from_str(" | ");
        waits.append(join_texts(&root_all(&input.deps), " ").as_str());
    }
    assert(waits@ =~= implicit_inputs(texts(input.deps@)));
    let mut out = String::from_str("build ");
    out.append(obj);
    if input.c_source {
        out.append(": compile_c ");
    } else {
        out.append(": compile_cxx ");
    }
    out.append(root_path(src).as_str());
    out.append(waits.as_str());
    if input.c_source {
        out.append("\n  cflags = ");
        out.append(join_texts(c_flags, " ").as_str());
    } else {
        out.append("\n  cxxflags = ");
        out.append(join_texts(cxx_flags, " ").as_str());
    }
    out.append("\n\n");
    out
}

/// The objects that the first `n` sources of a library are compiled to.
pub open spec fn lib_objs(config_id: Seq<char>, lib_name: Seq<char>, lib: LibEntry, n: nat) -> Seq<Seq<char>> {
    Seq::new(n, |j: int| target_path(config_id, lib_name, source_entries(lib.objects)[j].0))
}

/// The objects that the first `n` libraries are compiled to.
pub open spec fn objs_of(config_id: Seq<char>, entries: Seq<(Seq<char>, LibEntry)>, n: nat) -> Seq<Seq<char>>
    decreases n,
{
    if n == 0 || n > entries.len() {
        Seq::empty()
    } else {
        objs_of(config_id, entries, (n - 1) as nat) + lib_objs(
            config_id,
            entries[n - 1].0,
            entries[n - 1].1,
            source_entries(entries[n - 1].1.objects).len(),
        )
    }
}

/// The build steps for the first `n` sources of a library.
pub open spec fn lib_steps(
    config_id: Seq<char>,
    lib_name: Seq<char>,
    lib: LibEntry,
    inputs: Seq<SourceInput>,
    flags: (Seq<Seq<char>>, Seq<Seq<char>>),
    n: nat,
) -> Seq<char>
    decreases n,
{
    if n == 0 {
        Seq::empty()
    } else {
        let src = source_entries(lib.objects)[n - 1].0;
        lib_steps(config_id, lib_name, lib, inputs, flags, (n - 1) as nat) + build_step(
            target_path(config_id, lib_name, src),
            src,
            inputs[n - 1],
            flags.0,
            flags.1,
        )
    }
}

/// The build steps for the first `n` libraries, or the name of the first set of
/// flags that is not there.
pub open spec fn steps_of(
    config_id: Seq<char>,
    config: Config,
    entries: Seq<(Seq<char>, LibEntry)>,
    inputs: Seq<Vec<SourceInput>>,
    n: nat,
) -> Result<Seq<char>, Seq<char>>
    decreases n,
{
    if n == 0 {
        Ok(Seq::empty())
    } else {
        let lib = entries[n - 1].1;
        match steps_of(config_id, config, entries, inputs, (n - 1) as nat) {
            Err(e) => Err(e),
            Ok(before) => match flags_of(config, lib) {
                Err(e) => Err(e),
                Ok(flags) => Ok(
                    before + lib_steps(
                        config_id,
                        entries[n - 1].0,
                        lib,
                        inputs[n - 1]@,
                        flags,
                        source_entries(lib.objects).len(),
                    ),
                ),
            },
        }
    }
}

/// The lines that name the first `n` objects.
pub open spec fn obj_lines(objs: Seq<Seq<char>>, n: nat) -> Seq<char>
    decreases n,
{
    if n == 0 || n > objs.len() {
        Seq::empty()
    } else {
        obj_lines(objs, (n - 1) as nat) + "  "@ + objs[n - 1] + " $\n"@
    }
}

/// The whole build file.
pub open spec fn ninja_text(
    config_id: Seq<char>,
    config: Config,
    entries: Seq<(Seq<char>, LibEntry)>,
    inputs: Seq<Vec<SourceInput>>,
) -> Result<Seq<char>, Seq<char>> {
    let objs = objs_of(config_id, entries, entries.len());
    match steps_of(config_id, config, entries, inputs, entries.len()) {
        Err(e) => Err(e),
        Ok(steps) => Ok(
            ninja_head(c_compiler(config), config.compiler@, is_msvc(config)) + steps + "build all: phony $\n"@
                + obj_lines(objs, objs.len()) + "\ndefault all\n"@,
        ),
    }
}

/// Whether there is an input for each source of each library, which tells of the
/// source by its extension whether it is C.
pub open spec fn inputs_match(entries: Seq<(Seq<char>, LibEntry)>, inputs: Seq<Vec<SourceInput>>) -> bool {
    &&& inputs.len() == entries.len()
    &&& forall|i: int|
        0 <= i < entries.len() ==> (#[trigger] inputs[i])@.len() == source_entries(entries[i].1.objects).len()
    &&& forall|i: int, j: int|
        0 <= i < entries.len() && 0 <= j < inputs[i]@.len() ==> tells_of(
            source_entries(entries[i].1.objects)[j].0,
            (#[trigger] inputs[i]@[j]).c_source,
        )
}

fn render_lib(
    config_id: &str,
    lib_name: &str,
    lib: &LibEntry,
    inputs: &Vec<SourceInput>,
    c_flags: &Vec<String>,
    cxx_flags: &Vec<String>,
    objs: &mut Vec<String>,
) -> (out: String)
    requires
        inputs@.len() == source_entries(lib.objects).len(),
    ensures
        out@ == lib_steps(
            config_id@,
            lib_name@,
            *lib,
            inputs@,
            (texts(c_flags@), texts(cxx_flags@)),
            source_entries(lib.objects).len(),
        ),
        texts(final(objs)@) == texts(old(objs)@) + lib_objs(
            config_id@,
            lib_name@,
            *lib,
            source_entries(lib.objects).len(),
        ),
{
    let ghost flags = (texts(c_flags@), texts(cxx_flags@));
    let ghost start = texts(objs@);
    let mut out = String::new();
    let n = source_count(&lib.objects);
    let mut j: usize = 0;
    assert(start + lib_objs(config_id@, lib_name@, *lib, 0) =~= start);
    while j < n
        invariant
            j <= n,
            n == source_entries(lib.objects).len(),
            inputs@.len() == n,
            flags == (texts(c_flags@), texts(cxx_flags@)),
            out@ == lib_steps(config_id@, lib_name@, *lib, inputs@, flags, j as nat),
            texts(objs@) == start + lib_objs(config_id@, lib_name@, *lib, j as nat),
        decreases n - j,
    {
        if let Some((src, _)) = source_at(&lib.objects, j) {
            let obj = get_target_path(config_id, lib_name, src.as_str());
            out.append(render_step(obj.as_str(), src.as_str(), &inputs[j], c_flags, cxx_flags).as_str());
            let ghost was = texts(objs@);
            let ghost o = obj@;
            objs.push(obj);
            assert(texts(objs@) =~= was.push(o));
            assert(was.push(o) =~= start + lib_objs(config_id@, lib_name@, *lib, (j + 1) as nat));
        }
        j = j + 1;
    }
    out
}

fn render_objs(objs: &Vec<String>) -> (out: String)
    ensures
        out@ == obj_lines(texts(objs@), objs@.len()),
{
    let ghost all = texts(objs@);
    let mut out = String::new();
    let n = objs.len();
    let mut i: usize = 0;
    while i < n
        invariant
            i <= n,
            n == objs@.len(),
            all == texts(objs@),
            out@ == obj_lines(all, i as nat),
        decreases n - i,
    {
        assert(all[i as int] == objs@[i as int]@);
        out.append("  ");
        out.append(objs[i].as_str());
        out.append(" $\n");
        i = i + 1;
    }
    out
}

proof fn lemma_first_unknown(
    config_id: Seq<char>,
    config: Config,
    entries: Seq<(Seq<char>, LibEntry)>,
    inputs: Seq<Vec<SourceInput>>,
    m: nat,
    n: nat,
)
    requires
        m <= n,
        steps_of(config_id, config, entries, inputs, m) is Err,
    ensures
        steps_of(config_id, config, entries, inputs, n) == steps_of(config_id, config, entries, inputs, m),
    decreases n,
{
    if m < n {
        lemma_first_unknown(config_id, config, entries, inputs, m, (n - 1) as nat);
    }
}

/// Builds the ninja file: the compilers, a rule for C and one for C++, a build
/// step per source of each library, and a target for all of them.
pub fn write_ninja(config_id: &str, config: &Config, objects: &Objects, inputs: &Vec<Vec<SourceInput>>) -> (r: Result<
    String,
    UnknownFlags,
>)
    requires
        flags_end(*config, lib_entries(*objects)),
        inputs_match(lib_entries(*objects), inputs@),
    ensures
        match ninja_text(config_id@, *config, lib_entries(*objects), inputs@) {
            Ok(text) => r is Ok && r->Ok_0@ == text,
            Err(name) => r is Err && r->Err_0.name@ == name,
        },
{
    let ghost entries = lib_entries(*objects);
    let mut steps = String::new();
    let mut objs: Vec<String> = Vec::new();
    let n = lib_count(objects);
    let mut i: usize = 0;
    assert(texts(objs@) =~= Seq::empty());
    while i < n
        invariant
            i <= n,
            n == entries.len(),
            entries == lib_entries(*objects),
            flags_end(*config, entries),
            inputs_match(entries, inputs@),
            steps_of(config_id@, *config, entries, inputs@, i as nat) == Ok::<Seq<char>, Seq<char>>(steps@),
            texts(objs@) == objs_of(config_id@, entries, i as nat),
        decreases n - i,
    {
        if let Some((lib_name, lib)) = lib_at(objects, i) {
            assert(entries[i as int] == (lib_name@, *lib));
            assert(inputs@[i as int]@.len() == source_entries(entries[i as int].1.objects).len());
            match lib_flags(config, lib) {
                Ok((c_flags, cxx_flags)) => {
                    let text = render_lib(
                        config_id,
                        lib_name.as_str(),
                        lib,
                        &inputs[i],
                        &c_flags,
                        &cxx_flags,
                        &mut objs,
                    );
                    steps.append(text.as_str());
                },
                Err(e) => {
                    proof {
                        lemma_first_unknown(config_id@, *config, entries, inputs@, (i + 1) as nat, n as nat);
                    }
                    return Err(e);
                },
            }
        }
        i = i + 1;
    }
    let mut out = render_head(c_compiler_of(config), config.compiler.as_str(), uses_msvc(config));
    out.append(steps.as_str());
    out.append("build all: phony $\n");
    assert(texts(objs@).len() == objs@.len());
    out.append(render_objs(&objs).as_str());
    out.append("\ndefault all\n");
    Ok(out)
}

/// Ninja builds exactly the base objects of the listed units, in their order.
pub proof fn law_ninja_builds_the_listed_units(config_id: Seq<char>, entries: Seq<(Seq<char>, LibEntry)>, n: nat)
    requires
        n <= entries.len(),
    ensures
        objs_of(config_id, entries, n).len() == units_of(config_id, entries, n).len(),
        forall|k: int|
            0 <= k < units_of(config_id, entries, n).len() ==> #[trigger] objs_of(config_id, entries, n)[k]
                == units_of(config_id, entries, n)[k].base_path,
    decreases n,
{
    if n > 0 {
        law_ninja_builds_the_listed_units(config_id, entries, (n - 1) as nat);
        let (name, lib) = entries[n - 1];
        let objs = objs_of(config_id, entries, (n - 1) as nat);
        let units = units_of(config_id, entries, (n - 1) as nat);
        let more_objs = lib_objs(config_id, name, lib, source_entries(lib.objects).len());
        let more_units = lib_units(config_id, name, lib);
        assert forall|k: int| 0 <= k < (units + more_units).len() implies #[trigger] (objs + more_objs)[k] == (units
            + more_units)[k].base_path by {
            if k < units.len() {
                assert(objs[k] == units[k].base_path);
            } else {
                assert(more_objs[k - units.len()] == more_units[k - units.len()].base_path);
            }
        }
    }
}

/// One entry of the compile commands.
pub struct CompileCommandEntry {
    pub directory: String,
    pub file: String,
    pub arguments: Vec<String>,
}

/// What an entry holds.
pub struct CommandFacts {
    pub directory: Seq<char>,
    pub file: Seq<char>,
    pub arguments: Seq<Seq<char>>,
}

impl View for CompileCommandEntry {
    type V = CommandFacts;

    open spec fn view(&self) -> CommandFacts {
        CommandFacts { directory: self.directory@, file: self.file@, arguments: texts(self.arguments@) }
    }
}

/// What the entries of a list hold.
pub open spec fn command_facts(commands: Seq<CompileCommandEntry>) -> Seq<CommandFacts> {
    Seq::new(commands.len(), |i: int| commands[i]@)
}

/// What is known of a source besides its path: whether it is C, and where it
/// stands on this machine.
pub struct SourceFile {
    pub c_source: bool,
    pub file: String,
}

impl SourceFile {
    /// A source that stands at the given file, C by its extension.
    pub fn of(src: &str, file: String) -> (r: SourceFile)
        ensures
            tells_of(src@, r.c_source),
            r.file == file,
    {
        SourceFile { c_source: is_c_source(src), file }
    }
}

/// Whether there is a file for each source of each library, which tells of the
/// source by its extension whether it is C.
pub open spec fn files_match(entries: Seq<(Seq<char>, LibEntry)>, files: Seq<Vec<SourceFile>>) -> bool {
    &&& files.len() == entries.len()
    &&& forall|i: int|
        0 <= i < entries.len() ==> (#[trigger] files[i])@.len() == source_entries(entries[i].1.objects).len()
    &&& forall|i: int, j: int|
        0 <= i < entries.len() && 0 <= j < files[i]@.len() ==> tells_of(
            source_entries(entries[i].1.objects)[j].0,
            (#[trigger] files[i]@[j]).c_source,
        )
}

/// The flags without the quotes around them.
pub open spec fn unquoted_all(flags: Seq<Seq<char>>) -> Seq<Seq<char>> {
    Seq::new(flags.len(), |i: int| unquoted(flags[i]))
}

/// How a source is compiled.
pub open spec fn command_of(
    config: Config,
    directory: Seq<char>,
    file: SourceFile,
    flags: (Seq<Seq<char>>, Seq<Seq<char>>),
) -> CommandFacts {
    let compiler = if file.c_source {
        c_compiler(config)
    } else {
        config.compiler@
    };
    let chosen = if file.c_source {
        flags.0
    } else {
        flags.1
    };
    let mode = if is_msvc(config) {
        "/c"@
    } else {
        "-c"@
    };
    CommandFacts {
        directory,
        file: file.file@,
        arguments: seq![compiler, mode] + unquoted_all(chosen) + seq![file.file@],
    }
}

/// How the sources of a library are compiled.
pub open spec fn lib_commands(
    config: Config,
    directory: Seq<char>,
    files: Seq<SourceFile>,
    flags: (Seq<Seq<char>>, Seq<Seq<char>>),
) -> Seq<CommandFacts> {
    Seq::new(files.len(), |j: int| command_of(config, directory, files[j], flags))
}

/// How the sources of the first `n` libraries are compiled, or the name of the
/// first set of flags that is not there.
pub open spec fn commands_of(
    config: Config,
    entries: Seq<(Seq<char>, LibEntry)>,
    directory: Seq<char>,
    files: Seq<Vec<SourceFile>>,
    n: nat,
) -> Result<Seq<CommandFacts>, Seq<char>>
    decreases n,
{
    if n == 0 {
        Ok(Seq::empty())
    } else {
        match commands_of(config, entries, directory, files, (n - 1) as nat) {
            Err(e) => Err(e),
            Ok(before) => match flags_of(config, entries[n - 1].1) {
                Err(e) => Err(e),
                Ok(flags) => Ok(before + lib_commands(config, directory, files[n - 1]@, flags)),
            },
        }
    }
}

proof fn lemma_first_unknown_command(
    config: Config,
    entries: Seq<(Seq<char>, LibEntry)>,
    directory: Seq<char>,
    files: Seq<Vec<SourceFile>>,
    m: nat,
    n: nat,
)
    requires
        m <= n,
        commands_of(config, entries, directory, files, m) is Err,
    ensures
        commands_of(config, entries, directory, files, n) == commands_of(config, entries, directory, files, m),
    decreases n,
{
    if m < n {
        lemma_first_unknown_command(config, entries, directory, files, m, (n - 1) as nat);
    }
}

fn unquote_all(flags: &Vec<String>) -> (r: Vec<String>)
    ensures
        texts(r@) == unquoted_all(texts(flags@)),
{
    let n = flags.len();
    let mut out: Vec<String> = Vec::new();
    let mut i: usize = 0;
    while i < n
        invariant
            i <= n,
            n == flags@.len(),
            out@.len() == i,
            forall|j: int| 0 <= j < i ==> (#[trigger] out@[j])@ == unquoted(flags@[j]@),
        decreases n - i,
    {
        out.push(strip_arg_quotes(flags[i].as_str()));
        i = i + 1;
    }
    assert(texts(out@) =~= unquoted_all(texts(flags@)));
    out
}

fn make_command(
    config: &Config,
    directory: &str,
    file: &SourceFile,
    c_flags: &Vec<String>,
    cxx_flags: &Vec<String>,
) -> (r: CompileCommandEntry)
    ensures
        r@ == command_of(*config, directory@, *file, (texts(c_flags@), texts(cxx_flags@))),
{
    let (compiler, flags) = if file.c_source {
        (c_compiler_of(config), c_flags)
    } else {
        (config.compiler.as_str(), cxx_flags)
    };
    let mode = if uses_msvc(config) {
        "/c"
    } else {
        "-c"
    };
    let bare = unquote_all(flags);
    let ghost all = texts(bare@);
    let mut arguments: Vec<String> = Vec::new();
    arguments.push(compiler.to_owned());
    arguments.push(mode.to_owned());
    let ghost start = seq![compiler@, mode@];
    let n = bare.len();
    let mut i: usize = 0;
    assert(texts(arguments@) =~= start + all.take(0));
    while i < n
        invariant
            i <= n,
            n == bare@.len(),
            all == texts(bare@),
            texts(arguments@) == start + all.take(i as int),
        decreases n - i,
    {
        let ghost was = texts(arguments@);
        arguments.push(bare[i].as_str().to_owned());
        assert(texts(arguments@) =~= was.push(all[i as int]));
        assert(was.push(all[i as int]) =~= start + all.take(i + 1));
        i = i + 1;
    }
    assert(all.take(n as int) =~= all);
    let ghost was = texts(arguments@);
    arguments.push(file.file.as_str().to_owned());
    assert(texts(arguments@) =~= was + seq![file.file@]);
    CompileCommandEntry { directory: directory.to_owned(), file: file.file.as_str().to_owned(), arguments }
}

/// Builds the compile commands: an entry per source of each library.
pub fn write_compile_commands(
    config: &Config,
    objects: &Objects,
    directory: &str,
    files: &Vec<Vec<SourceFile>>,
) -> (r: Result<Vec<CompileCommandEntry>, UnknownFlags>)
    requires
        flags_end(*config, lib_entries(*objects)),
        files_match(lib_entries(*objects), files@),
    ensures
        match commands_of(*config, lib_entries(*objects), directory@, files@, lib_entries(*objects).len()) {
            Ok(commands) => r is Ok && command_facts(r->Ok_0@) == commands,
            Err(name) => r is Err && r->Err_0.name@ == name,
        },
{
    let ghost entries = lib_entries(*objects);
    let mut out: Vec<CompileCommandEntry> = Vec::new();
    let n = lib_count(objects);
    let mut i: usize = 0;
    assert(command_facts(out@) =~= Seq::empty());
    while i < n
        invariant
            i <= n,
            n == entries.len(),
            entries == lib_entries(*objects),
            flags_end(*config, entries),
            files_match(entries, files@),
            commands_of(*config, entries, directory@, files@, i as nat) == Ok::<Seq<CommandFacts>, Seq<char>>(
                command_facts(out@),
            ),
        decreases n - i,
    {
        if let Some((lib_name, lib)) = lib_at(objects, i) {
            assert(entries[i as int] == (lib_name@, *lib));
            let (c_flags, cxx_flags) = match lib_flags(config, lib) {
                Ok(flags) => flags,
                Err(e) => {
                    proof {
                        lemma_first_unknown_command(*config, entries, directory@, files@, (i + 1) as nat, n as nat);
                    }
                    return Err(e);
                },
            };
            let ghost flags = (texts(c_flags@), texts(cxx_flags@));
            let ghost before = command_facts(out@);
            let ghost added = lib_commands(*config, directory@, files@[i as int]@, flags);
            let m = files[i].len();
            let mut j: usize = 0;
            assert(before + added.take(0) =~= before);
            while j < m
                invariant
                    j <= m,
                    i < files@.len(),
                    m == files@[i as int]@.len(),
                    flags == (texts(c_flags@), texts(cxx_flags@)),
                    added == lib_commands(*config, directory@, files@[i as int]@, flags),
                    command_facts(out@) == before + added.take(j as int),
                decreases m - j,
            {
                let ghost was = command_facts(out@);
                let command = make_command(config, directory, &files[i][j], &c_flags, &cxx_flags);
                let ghost facts = command@;
                out.push(command);
                assert(command_facts(out@) =~= was.push(facts));
                assert(added.take(j + 1) =~= added.take(j as int).push(added[j as int]));
                assert(was.push(facts) =~= before + added.take(j + 1));
                j = j + 1;
            }
            assert(added.take(m as int) =~= added);
        }
        i = i + 1;
    }
    Ok(out)
}

/// The C flags of a library: those of the set that it names among the C sets.
pub open spec fn own_c_flags(config: Config, lib: LibEntry) -> Result<Seq<Seq<char>>, Seq<char>> {
    flags_for(flag_entries(config.cflags), lib.cflags@, config.compiler_root@, config.sdk_root@)
}

/// The C++ flags of a library: its C flags, and behind them those of the set that
/// it names among the C++ sets, where there are such sets, but for what stands
/// among the C flags already.
pub open spec fn own_cxx_flags(config: Config, lib: LibEntry) -> Result<Seq<Seq<char>>, Seq<char>> {
    match (own_c_flags(config, lib), config.cxxflags) {
        (Ok(c), Some(sets)) => match flags_for(
            flag_entries(sets),
            lib.cflags@,
            config.compiler_root@,
            config.sdk_root@,
        ) {
            Ok(extra) => Ok(c + extra.filter(|f: Seq<char>| !c.contains(f))),
            Err(e) => Err(e),
        },
        (c, _) => c,
    }
}

/// How the step of a source begins: what it builds, by which rule, and from which
/// file.
pub open spec fn step_start(config_id: Seq<char>, lib_name: Seq<char>, src: Seq<char>, c_source: bool) -> Seq<char> {
    "build "@ + target_path(config_id, lib_name, src) + (if c_source {
        ": compile_c "@
    } else {
        ": compile_cxx "@
    }) + forward("."@ + "/"@ + src)
}

/// The step of source `j` of library `i`: how it begins, the files it waits for,
/// and its flags, which for a C source are the library's C flags and for any
/// other the library's C++ flags.
pub open spec fn step_at(
    config_id: Seq<char>,
    config: Config,
    entries: Seq<(Seq<char>, LibEntry)>,
    inputs: Seq<Vec<SourceInput>>,
    i: int,
    j: int,
) -> Seq<char> {
    let lib = entries[i].1;
    let input = inputs[i]@[j];
    let deps = input.deps@;
    step_start(config_id, entries[i].0, source_entries(lib.objects)[j].0, input.c_source) + (if deps.len() == 0 {
        Seq::<char>::empty()
    } else {
        " | "@ + joined(Seq::new(deps.len(), |k: int| forward("."@ + "/"@ + deps[k]@)), " "@)
    }) + (if input.c_source {
        "\n  cflags = "@ + joined(own_c_flags(config, lib)->Ok_0, " "@)
    } else {
        "\n  cxxflags = "@ + joined(own_cxx_flags(config, lib)->Ok_0, " "@)
    }) + "\n\n"@
}

/// The steps of the sources at the given places.
pub open spec fn steps_at(
    config_id: Seq<char>,
    config: Config,
    entries: Seq<(Seq<char>, LibEntry)>,
    inputs: Seq<Vec<SourceInput>>,
    places: Seq<(int, int)>,
) -> Seq<Seq<char>> {
    Seq::new(places.len(), |a: int| step_at(config_id, config, entries, inputs, places[a].0, places[a].1))
}

/// The lines that name the objects of the sources at the given places.
pub open spec fn object_lines_at(
    config_id: Seq<char>,
    entries: Seq<(Seq<char>, LibEntry)>,
    places: Seq<(int, int)>,
) -> Seq<Seq<char>> {
    Seq::new(
        places.len(),
        |a: int|
            "  "@ + target_path(
                config_id,
                entries[places[a].0].0,
                source_entries(entries[places[a].0].1.objects)[places[a].1].0,
            ) + " $"@,
    )
}

proof fn lemma_flags_of(config: Config, lib: LibEntry)
    ensures
        match flags_of(config, lib) {
            Ok((c, cxx)) => own_c_flags(config, lib) == Ok::<Seq<Seq<char>>, Seq<char>>(c) && own_cxx_flags(config, lib)
                == Ok::<Seq<Seq<char>>, Seq<char>>(cxx),
            Err(e) => own_cxx_flags(config, lib) == Err::<Seq<Seq<char>>, Seq<char>>(e),
        },
{
}

proof fn lemma_step_at(
    config_id: Seq<char>,
    config: Config,
    entries: Seq<(Seq<char>, LibEntry)>,
    inputs: Seq<Vec<SourceInput>>,
    i: int,
    j: int,
)
    requires
        flags_of(config, entries[i].1) is Ok,
    ensures
        ({
            let lib = entries[i].1;
            let src = source_entries(lib.objects)[j].0;
            let (c, cxx) = flags_of(config, lib)->Ok_0;
            build_step(target_path(config_id, entries[i].0, src), src, inputs[i]@[j], c, cxx) == step_at(
                config_id,
                config,
                entries,
                inputs,
                i,
                j,
            )
        }),
{
    let lib = entries[i].1;
    let src = source_entries(lib.objects)[j].0;
    let input = inputs[i]@[j];
    let deps = input.deps@;
    let (c, cxx) = flags_of(config, lib)->Ok_0;
    lemma_flags_of(config, lib);
    assert(rooted_all(texts(deps)) =~= Seq::new(deps.len(), |k: int| forward("."@ + "/"@ + deps[k]@)));
    let start = step_start(config_id, entries[i].0, src, input.c_source);
    let waits = implicit_inputs(texts(deps));
    let var = if input.c_source {
        "\n  cflags = "@
    } else {
        "\n  cxxflags = "@
    };
    let flags = joined(
        if input.c_source {
            c
        } else {
            cxx
        },
        " "@,
    );
    assert(start + waits + var + flags =~= start + waits + (var + flags));
}

proof fn lemma_lib_steps(
    config_id: Seq<char>,
    config: Config,
    entries: Seq<(Seq<char>, LibEntry)>,
    inputs: Seq<Vec<SourceInput>>,
    i: int,
    before: Seq<(int, int)>,
    n: nat,
)
    requires
        flags_of(config, entries[i].1) is Ok,
    ensures
        joined(steps_at(config_id, config, entries, inputs, before), ""@) + lib_steps(
            config_id,
            entries[i].0,
            entries[i].1,
            inputs[i]@,
            flags_of(config, entries[i].1)->Ok_0,
            n,
        ) == joined(steps_at(config_id, config, entries, inputs, before + Seq::new(n, |j: int| (i, j))), ""@),
    decreases n,
{
    let flags = flags_of(config, entries[i].1)->Ok_0;
    let places = before + Seq::new(n, |j: int| (i, j));
    let first = joined(steps_at(config_id, config, entries, inputs, before), ""@);
    if n == 0 {
        assert(places =~= before);
        assert(first + lib_steps(config_id, entries[i].0, entries[i].1, inputs[i]@, flags, 0) =~= first);
    } else {
        let m = (n - 1) as nat;
        lemma_lib_steps(config_id, config, entries, inputs, i, before, m);
        lemma_step_at(config_id, config, entries, inputs, i, n - 1);
        let fewer = before + Seq::new(m, |j: int| (i, j));
        let step = step_at(config_id, config, entries, inputs, i, n - 1);
        lemma_joined_with_nothing(steps_at(config_id, config, entries, inputs, fewer), step);
        assert(steps_at(config_id, config, entries, inputs, places) =~= steps_at(
            config_id,
            config,
            entries,
            inputs,
            fewer,
        ).push(step));
        let text = lib_steps(config_id, entries[i].0, entries[i].1, inputs[i]@, flags, m);
        assert(first + (text + step) =~= first + text + step);
    }
}

proof fn lemma_steps_of(
    config_id: Seq<char>,
    config: Config,
    entries: Seq<(Seq<char>, LibEntry)>,
    inputs: Seq<Vec<SourceInput>>,
    n: nat,
)
    requires
        n <= entries.len(),
        steps_of(config_id, config, entries, inputs, n) is Ok,
    ensures
        steps_of(config_id, config, entries, inputs, n)->Ok_0 == joined(
            steps_at(config_id, config, entries, inputs, source_places(entries, n)),
            ""@,
        ),
        forall|i: int| 0 <= i < n ==> flags_of(config, (#[trigger] entries[i]).1) is Ok,
    decreases n,
{
    if n > 0 {
        let m = (n - 1) as nat;
        lemma_steps_of(config_id, config, entries, inputs, m);
        lemma_lib_steps(
            config_id,
            config,
            entries,
            inputs,
            n - 1,
            source_places(entries, m),
            source_entries(entries[n - 1].1.objects).len(),
        );
    }
}

proof fn lemma_objs_of(config_id: Seq<char>, entries: Seq<(Seq<char>, LibEntry)>, n: nat)
    requires
        n <= entries.len(),
    ensures
        objs_of(config_id, entries, n).len() == source_places(entries, n).len(),
        forall|a: int|
            0 <= a < source_places(entries, n).len() ==> #[trigger] objs_of(config_id, entries, n)[a] == target_path(
                config_id,
                entries[source_places(entries, n)[a].0].0,
                source_entries(entries[source_places(entries, n)[a].0].1.objects)[source_places(entries, n)[a].1].0,
            ),
    decreases n,
{
    if n > 0 {
        let m = (n - 1) as nat;
        lemma_objs_of(config_id, entries, m);
        let objs = objs_of(config_id, entries, m);
        let places = source_places(entries, m);
        let all = objs_of(config_id, entries, n);
        assert forall|a: int| 0 <= a < source_places(entries, n).len() implies #[trigger] all[a] == target_path(
            config_id,
            entries[source_places(entries, n)[a].0].0,
            source_entries(entries[source_places(entries, n)[a].0].1.objects)[source_places(entries, n)[a].1].0,
        ) by {
            if a < objs.len() {
                assert(all[a] == objs[a]);
                assert(source_places(entries, n)[a] == places[a]);
            }
        }
    }
}

proof fn lemma_obj_lines(
    config_id: Seq<char>,
    entries: Seq<(Seq<char>, LibEntry)>,
    objs: Seq<Seq<char>>,
    places: Seq<(int, int)>,
    n: nat,
)
    requires
        n <= objs.len(),
        objs.len() == places.len(),
        forall|a: int|
            0 <= a < places.len() ==> #[trigger] objs[a] == target_path(
                config_id,
                entries[places[a].0].0,
                source_entries(entries[places[a].0].1.objects)[places[a].1].0,
            ),
    ensures
        obj_lines(objs, n) == as_lines(object_lines_at(config_id, entries, places).take(n as int)),
    decreases n,
{
    let all = object_lines_at(config_id, entries, places);
    if n == 0 {
        assert(all.take(0) =~= Seq::empty());
    } else {
        lemma_obj_lines(config_id, entries, objs, places, (n - 1) as nat);
        let before = all.take(n - 1);
        let line = "  "@ + objs[n - 1] + " $"@;
        lemma_as_lines_more(before, line);
        assert(all.take(n as int) =~= before.push(line));
        reveal_strlit(" $\n");
        reveal_strlit(" $");
        reveal_strlit("\n");
        let text = obj_lines(objs, (n - 1) as nat);
        assert(text + "  "@ + objs[n - 1] + " $\n"@ =~= text + line + "\n"@);
    }
}

/// The build file names the compilers and the rules, holds the step of every
/// source of every library, in their order and nothing between them, and ends
/// with a target that names the objects of all of them.
pub proof fn law_every_source_has_its_step(
    config_id: Seq<char>,
    config: Config,
    entries: Seq<(Seq<char>, LibEntry)>,
    inputs: Seq<Vec<SourceInput>>,
)
    requires
        ninja_text(config_id, config, entries, inputs) is Ok,
    ensures
        ({
            let places = source_places(entries, entries.len());
            let cc = match config.compiler_c {
                Some(c) => c@,
                None => config.compiler@,
            };
            let rules = if ends_with(lowercase(config.compiler@), "cl.exe"@) {
                MSVC_RULES@
            } else {
                PORTABLE_RULES@
            };
            let head = "cc = "@ + cc + "\n\ncxx = "@ + config.compiler@ + "\n\n"@ + rules;
            let steps = joined(steps_at(config_id, config, entries, inputs, places), ""@);
            let tail = "build all: phony $\n"@ + as_lines(object_lines_at(config_id, entries, places))
                + "\ndefault all\n"@;
            ninja_text(config_id, config, entries, inputs)->Ok_0 == head + steps + tail
        }),
        forall|i: int|
            0 <= i < entries.len() ==> own_c_flags(config, (#[trigger] entries[i]).1) is Ok && own_cxx_flags(
                config,
                entries[i].1,
            ) is Ok,
{
    let n = entries.len();
    let places = source_places(entries, n);
    let objs = objs_of(config_id, entries, n);
    lemma_steps_of(config_id, config, entries, inputs, n);
    lemma_objs_of(config_id, entries, n);
    lemma_obj_lines(config_id, entries, objs, places, objs.len());
    let named = object_lines_at(config_id, entries, places);
    assert(named.take(objs.len() as int) =~= named);
    assert forall|i: int| 0 <= i < entries.len() implies own_c_flags(config, (#[trigger] entries[i]).1) is Ok
        && own_cxx_flags(config, entries[i].1) is Ok by {
        lemma_flags_of(config, entries[i].1);
    }
    let head = ninja_head(c_compiler(config), config.compiler@, is_msvc(config));
    let steps = joined(steps_at(config_id, config, entries, inputs, places), ""@);
    let lines = as_lines(named);
    assert(head + steps + "build all: phony $\n"@ + lines + "\ndefault all\n"@ =~= head + steps
        + ("build all: phony $\n"@ + lines + "\ndefault all\n"@));
}

/// The step of a C source carries exactly the C flags of its library: no flag
/// that stands only in the C++ sets. The step of any other source carries them
/// too, and behind them every flag of the library's C++ set that is not among
/// them.
pub proof fn law_a_step_carries_the_flags_of_its_language(
    obj: Seq<char>,
    src: Seq<char>,
    input: SourceInput,
    config: Config,
    lib: LibEntry,
    f: Seq<char>,
)
    requires
        flags_of(config, lib) is Ok,
    ensures
        ({
            let (c_flags, cxx_flags) = flags_of(config, lib)->Ok_0;
            let step = build_step(obj, src, input, c_flags, cxx_flags);
            let c = flags_for(flag_entries(config.cflags), lib.cflags@, config.compiler_root@, config.sdk_root@);
            let cxx = own_cxx_flags(config, lib);
            &&& c is Ok && cxx is Ok
            &&& input.c_source ==> ends_with(step, "\n  cflags = "@ + joined(c->Ok_0, " "@) + "\n\n"@)
            &&& input.c_source ==> begins_with(step, "build "@ + obj + ": compile_c "@)
            &&& !input.c_source ==> ends_with(step, "\n  cxxflags = "@ + joined(cxx->Ok_0, " "@) + "\n\n"@)
            &&& !input.c_source ==> begins_with(step, "build "@ + obj + ": compile_cxx "@)
            &&& cxx->Ok_0.take(c->Ok_0.len() as int) == c->Ok_0
            &&& config.cxxflags is Some ==> {
                let extra = flags_for(
                    flag_entries(config.cxxflags->0),
                    lib.cflags@,
                    config.compiler_root@,
                    config.sdk_root@,
                );
                extra is Ok && (cxx->Ok_0.contains(f) <==> c->Ok_0.contains(f) || extra->Ok_0.contains(f))
            }
        }),
{
    lemma_flags_of(config, lib);
    let (c, cxx) = flags_of(config, lib)->Ok_0;
    let step = build_step(obj, src, input, c, cxx);
    let rule = if input.c_source {
        ": compile_c "@
    } else {
        ": compile_cxx "@
    };
    let var = if input.c_source {
        "\n  cflags = "@
    } else {
        "\n  cxxflags = "@
    };
    let flags = joined(
        if input.c_source {
            c
        } else {
            cxx
        },
        " "@,
    );
    let start = "build "@ + obj + rule;
    let middle = rooted(src) + implicit_inputs(texts(input.deps@));
    let end = var + flags + "\n\n"@;
    assert(step =~= start + middle + end);
    assert(step.subrange(0, start.len() as int) =~= start);
    assert(step.subrange(step.len() - end.len(), step.len() as int) =~= end);
    match config.cxxflags {
        Some(sets) => {
            law_merged_flags_drop_nothing(
                c,
                flags_for(flag_entries(sets), lib.cflags@, config.compiler_root@, config.sdk_root@)->Ok_0,
            );
        },
        None => {
            assert(c.take(c.len() as int) =~= c);
        },
    }
}

/// Writing the build files fails where a library needs a set of flags that is not
/// there, and names what the first such library needs.
pub proof fn law_the_first_missing_set_is_named(
    config_id: Seq<char>,
    config: Config,
    entries: Seq<(Seq<char>, LibEntry)>,
    inputs: Seq<Vec<SourceInput>>,
    directory: Seq<char>,
    files: Seq<Vec<SourceFile>>,
    i: int,
)
    requires
        0 <= i < entries.len(),
        forall|k: int| 0 <= k < i ==> own_cxx_flags(config, (#[trigger] entries[k]).1) is Ok,
        own_cxx_flags(config, entries[i].1) is Err,
    ensures
        ninja_text(config_id, config, entries, inputs) == Err::<Seq<char>, Seq<char>>(
            own_cxx_flags(config, entries[i].1)->Err_0,
        ),
        commands_of(config, entries, directory, files, entries.len()) == Err::<Seq<CommandFacts>, Seq<char>>(
            own_cxx_flags(config, entries[i].1)->Err_0,
        ),
{
    lemma_flags_of(config, entries[i].1);
    lemma_all_before(config_id, config, entries, inputs, directory, files, i as nat);
    lemma_first_unknown(config_id, config, entries, inputs, (i + 1) as nat, entries.len());
    lemma_first_unknown_command(config, entries, directory, files, (i + 1) as nat, entries.len());
}

proof fn lemma_all_before(
    config_id: Seq<char>,
    config: Config,
    entries: Seq<(Seq<char>, LibEntry)>,
    inputs: Seq<Vec<SourceInput>>,
    directory: Seq<char>,
    files: Seq<Vec<SourceFile>>,
    n: nat,
)
    requires
        n <= entries.len(),
        forall|k: int| 0 <= k < n ==> own_cxx_flags(config, (#[trigger] entries[k]).1) is Ok,
    ensures
        steps_of(config_id, config, entries, inputs, n) is Ok,
        commands_of(config, entries, directory, files, n) is Ok,
    decreases n,
{
    if n > 0 {
        lemma_all_before(config_id, config, entries, inputs, directory, files, (n - 1) as nat);
        lemma_flags_of(config, entries[n - 1].1);
    }
}

/// Whether a command compiles a file of a library: with the compiler of its
/// language, the switch to compile only, the flags of its language without their
/// quotes, and the file.
pub open spec fn compiles(
    command: CommandFacts,
    config: Config,
    lib: LibEntry,
    directory: Seq<char>,
    file: SourceFile,
) -> bool {
    let flags = if file.c_source {
        own_c_flags(config, lib)
    } else {
        own_cxx_flags(config, lib)
    };
    let m = flags->Ok_0.len() as int;
    &&& flags is Ok
    &&& command.directory == directory
    &&& command.file == file.file@
    &&& command.arguments.len() == m + 3
    &&& file.c_source && config.compiler_c is Some ==> command.arguments[0] == config.compiler_c->0@
    &&& !file.c_source || config.compiler_c is None ==> command.arguments[0] == config.compiler@
    &&& ends_with(lowercase(config.compiler@), "cl.exe"@) ==> command.arguments[1] == "/c"@
    &&& !ends_with(lowercase(config.compiler@), "cl.exe"@) ==> command.arguments[1] == "-c"@
    &&& forall|k: int| 2 <= k < m + 2 ==> #[trigger] command.arguments[k] == unquoted(flags->Ok_0[k - 2])
    &&& command.arguments[m + 2] == file.file@
}

proof fn lemma_compiles(config: Config, lib: LibEntry, directory: Seq<char>, file: SourceFile)
    requires
        flags_of(config, lib) is Ok,
    ensures
        compiles(command_of(config, directory, file, flags_of(config, lib)->Ok_0), config, lib, directory, file),
{
    lemma_flags_of(config, lib);
}

/// Every source of every library has one compile command, in their order, which
/// compiles its file.
pub proof fn law_every_source_has_its_command(
    config: Config,
    entries: Seq<(Seq<char>, LibEntry)>,
    directory: Seq<char>,
    files: Seq<Vec<SourceFile>>,
    n: nat,
)
    requires
        n <= entries.len(),
        files_match(entries, files),
        commands_of(config, entries, directory, files, n) is Ok,
    ensures
        commands_of(config, entries, directory, files, n)->Ok_0.len() == source_places(entries, n).len(),
        forall|a: int|
            0 <= a < source_places(entries, n).len() ==> {
                let (i, j) = source_places(entries, n)[a];
                compiles(
                    #[trigger] commands_of(config, entries, directory, files, n)->Ok_0[a],
                    config,
                    entries[i].1,
                    directory,
                    files[i]@[j],
                )
            },
    decreases n,
{
    if n > 0 {
        let m = (n - 1) as nat;
        law_every_source_has_its_command(config, entries, directory, files, m);
        let lib = entries[n - 1].1;
        let flags = flags_of(config, lib)->Ok_0;
        let before = commands_of(config, entries, directory, files, m)->Ok_0;
        let own = lib_commands(config, directory, files[n - 1]@, flags);
        let all = commands_of(config, entries, directory, files, n)->Ok_0;
        assert(files[n - 1]@.len() == source_entries(entries[n - 1].1.objects).len());
        assert(all == before + own);
        let places = source_places(entries, m);
        assert forall|a: int| 0 <= a < source_places(entries, n).len() implies {
            let (i, j) = source_places(entries, n)[a];
            compiles(#[trigger] all[a], config, entries[i].1, directory, files[i]@[j])
        } by {
            if a >= places.len() {
                assert(all[a] == own[a - before.len()]);
                lemma_compiles(config, lib, directory, files[n - 1]@[a - before.len()]);
            } else {
                assert(all[a] == before[a]);
                assert(source_places(entries, n)[a] == places[a]);
            }
        }
    }
}

/// What is told of a source is that it is C just where its extension is `c` or
/// `C`.
pub proof fn law_a_source_is_c_by_its_extension(dir: Seq<char>, stem: Seq<char>, ext: Seq<char>, c_source: bool)
    requires
        stem.len() > 0,
        ext.len() > 0,
        !ext.contains('.'),
        !(stem + ext).contains('/'),
        !(stem + ext).contains('\\'),
        dir.len() == 0 || dir.last() == '/',
        is_simple_path(dir + stem + seq!['.'] + ext),
        tells_of(dir + stem + seq!['.'] + ext, c_source),
    ensures
        c_source <==> ext == seq!['c'] || ext == seq!['C'],
{
    law_a_name_has_the_extension_behind_its_last_dot(dir, stem, ext);
}

} // verus!
