use flboot::codegen::{
    get_delink_path, get_target_path, no_objects_message, strip_last_extension, to_forward_path, unit_paths,
    write_objdiff,
};
use flboot::dev::strip_arg_quotes;
use flboot::flags::{flag_chain_ends, flatten_cflags, get_cxx_flags_merged, get_flags, substitute_flag};
use flboot::model::{Config, FlagSet, LibEntry, Objects};
use flboot::ninja::{all_flags_end, write_compile_commands, write_ninja, SourceFile, SourceInput};
use flboot::scan::{collapse, is_c_extension, is_c_source, local_includes, parse_local_include, IncludeScan, PathPart};
use indexmap::IndexMap;
use std::path::{Component, Path, PathBuf};

fn flag_set(base: Option<&str>, flags: &[&str]) -> FlagSet {
    FlagSet { base: base.map(|b| b.to_string()), flags: flags.iter().map(|f| f.to_string()).collect() }
}

fn flagset_map() -> IndexMap<String, FlagSet> {
    let mut map = IndexMap::new();
    map.insert(
        "decomp".to_string(),
        flag_set(None, &["/O2", "\"/I$(SOURCE_ROOT)/src\"", "\"/I$(COMPILER_ROOT)/INCLUDE\""]),
    );
    map.insert("x86math.dll".to_string(), flag_set(Some("decomp"), &["/G6", "/D_DLL"]));
    map
}

#[test]
fn flattens_base_chain_and_substitutes_placeholders() {
    let map = flagset_map();
    let flat = flatten_cflags("x86math.dll", &map, "build/msvc6.0", "build/msvc6.0").unwrap();
    assert_eq!(
        flat,
        vec![
            "/O2",
            "\"/I./src\"",
            "\"/Ibuild/msvc6.0/INCLUDE\"",
            "/G6",
            "/D_DLL",
        ]
    );
}

#[test]
fn get_flags_returns_empty_for_unknown_key() {
    let map = flagset_map();
    let flat = get_flags("nonexistent", &map, "build/msvc6.0", "build/msvc6.0").unwrap();
    assert!(flat.is_empty());
}

#[test]
fn an_unknown_base_is_named() {
    let mut map = flagset_map();
    map.insert("bad".to_string(), flag_set(Some("gone"), &["/X"]));
    let e = get_flags("bad", &map, "c", "s").unwrap_err();
    assert_eq!(e.message(), "unknown cflags key: gone");
    assert_eq!(flatten_cflags("nonexistent", &map, "c", "s").unwrap_err().name, "nonexistent");
}

#[test]
fn a_circle_of_flag_sets_does_not_end() {
    let mut map = flagset_map();
    map.insert("a".to_string(), flag_set(Some("b"), &[]));
    map.insert("b".to_string(), flag_set(Some("a"), &[]));
    map.insert("self".to_string(), flag_set(Some("self"), &[]));
    assert!(!flag_chain_ends("a", &map));
    assert!(!flag_chain_ends("self", &map));
    assert!(flag_chain_ends("x86math.dll", &map));
    assert!(flag_chain_ends("nonexistent", &map));
    map.insert("b".to_string(), flag_set(Some("gone"), &[]));
    assert!(flag_chain_ends("a", &map));
    let mut chain = IndexMap::new();
    for i in 0..20 {
        chain.insert(format!("s{i}"), flag_set(Some(&format!("s{}", i + 1)), &[]));
    }
    assert!(flag_chain_ends("s0", &chain));
}

#[test]
fn placeholders_are_filled_in_one_after_the_other() {
    assert_eq!(substitute_flag("$(SOURCE_ROOT)|$(COMPILER_ROOT)|$(SDK_ROOT)|$(X)", "c", "s"), ".|c|s|$(X)");
    assert_eq!(substitute_flag("$(COMPILER_ROOT)$(COMPILER_ROOT)", "$(SDK_ROOT)", "s"), "ss");
}

#[test]
fn merged_flags_keep_the_shared_ones_first() {
    let mut cflags = IndexMap::new();
    cflags.insert("u".to_string(), flag_set(None, &["/GX", "/G6", "/GX"]));
    let mut cxxflags = IndexMap::new();
    cxxflags.insert("u".to_string(), flag_set(None, &["/GR", "/G6", "/GR"]));
    let merged = get_cxx_flags_merged("u", &cflags, Some(&cxxflags), "c", "s").unwrap();
    assert_eq!(merged, vec!["/GX", "/G6", "/GX", "/GR", "/GR"]);
    assert_eq!(get_cxx_flags_merged("u", &cflags, None, "c", "s").unwrap(), vec!["/GX", "/G6", "/GX"]);
    assert_eq!(get_cxx_flags_merged("v", &cflags, Some(&cxxflags), "c", "s").unwrap(), Vec::<String>::new());
}

#[test]
fn builds_target_path_under_obj_scheme() {
    let path = get_target_path("052103", "x86math.dll", "src/x86math.dll.cpp");
    assert_eq!(path, "build/052103/obj/x86math.dll/src/x86math.dll.obj");
}

#[test]
fn builds_delink_path() {
    let path = get_delink_path("052103", "x86math.dll", "x86math.dll.obj");
    assert_eq!(path, "build/052103/delink/x86math.dll/x86math.dll.obj");
}

#[test]
fn paths_get_forward_slashes() {
    assert_eq!(to_forward_path(r"a\b/c\"), "a/b/c/");
    assert_eq!(get_delink_path("id", r"l\x", r"d\o.obj"), r"build/id/delink/l\x/d/o.obj");
    assert_eq!(get_target_path("id", "lib", r"src\a.cpp"), "build/id/obj/lib/src/a.obj");
}

#[test]
fn the_last_extension_is_stripped() {
    assert_eq!(strip_last_extension("a.b.c"), "a.b");
    assert_eq!(strip_last_extension("abc"), "abc");
    assert_eq!(strip_last_extension(".x"), "");
}

#[test]
fn strips_matching_quote_pair_only() {
    assert_eq!(strip_arg_quotes("\"/Fofoo.obj\""), "/Fofoo.obj");
    assert_eq!(strip_arg_quotes("/O2"), "/O2");
    assert_eq!(strip_arg_quotes("\""), "\"");
}

#[test]
fn identifies_c_sources_case_insensitively() {
    assert!(is_c_source("foo.C"));
    assert!(is_c_source("foo.c"));
    assert!(!is_c_source("foo.cpp"));
    assert!(!is_c_source("foo.cc"));
}

#[test]
fn a_source_is_c_by_the_extension_of_its_name() {
    assert!(is_c_source("src/a.cpp/x.c"));
    assert!(is_c_source("/x/a.c"));
    assert!(is_c_source(r"src\a.c"));
    assert!(is_c_source(r"\x\a.C"));
    assert!(!is_c_source(r"src\a.cpp"));
    assert!(!is_c_source("/c"));
    assert!(!is_c_source(""));
    assert!(!is_c_source("/"));
    assert!(is_c_source("src/a.c/"));
    assert!(is_c_source("src/a.c/.//"));
    assert!(!is_c_source("a.c/.."));
    assert!(!is_c_source("./."));
    assert!(!is_c_source("src.c/x"));
    assert!(!is_c_source(".c"));
    assert!(!is_c_source("c"));
    assert!(!is_c_source("x."));
    assert!(!is_c_extension(None));
    for c in '\0'..=char::MAX {
        let e = c.to_string();
        assert_eq!(is_c_extension(Some(&e)), e.to_lowercase() == "c", "{c:?}");
    }
}

fn lib(category: &str, sources: &[(&str, Option<&str>)]) -> LibEntry {
    let mut objects = IndexMap::new();
    for (src, target) in sources {
        objects.insert(src.to_string(), target.map(|t| t.to_string()));
    }
    LibEntry {
        progress_category: category.to_string(),
        cflags: category.to_string(),
        idapro: "x".to_string(),
        delink: None,
        binary: None,
        objects,
    }
}

fn one(name: &str, entry: LibEntry) -> Objects {
    let mut objects = Objects::new();
    objects.insert(name.to_string(), entry);
    objects
}

#[test]
fn unit_paths_match_objdiff_json_derivation() {
    let objs = one("x86math.dll", lib("x", &[("src/x86math.dll.cpp", Some("x86math.dll.obj"))]));
    let (target, base) = unit_paths("cfgid", &objs, "x86math.dll").unwrap();
    assert_eq!(target, "build/cfgid/delink/x86math.dll/x86math.dll.obj");
    assert_eq!(base, "build/cfgid/obj/x86math.dll/src/x86math.dll.obj");
}

/// `delink` renames the delink output directory; the base path is unaffected.
#[test]
fn unit_paths_honor_delink_override() {
    let mut entry = lib("x", &[("src/Common.dll.cpp", Some("Common.dll.obj"))]);
    entry.delink = Some("common".to_string());
    let objs = one("Common.dll", entry);
    let (target, base) = unit_paths("cfgid", &objs, "Common.dll").unwrap();
    assert_eq!(target, "build/cfgid/delink/common/Common.dll.obj");
    assert_eq!(base, "build/cfgid/obj/Common.dll/src/Common.dll.obj");
}

/// A null/empty target falls back to the source name, matching write_objdiff.
#[test]
fn unit_paths_fall_back_to_source_name() {
    let objs = one("A.dll", lib("x", &[("src/A.dll.obj", None)]));
    let (target, _) = unit_paths("cfgid", &objs, "A.dll").unwrap();
    assert_eq!(target, "build/cfgid/delink/A.dll/src/A.dll.obj");
    let objs = one("A.dll", lib("x", &[("src/A.dll.obj", Some(""))]));
    let (target, _) = unit_paths("cfgid", &objs, "A.dll").unwrap();
    assert_eq!(target, "build/cfgid/delink/A.dll/src/A.dll.obj");
}

#[test]
fn unit_paths_rejects_unknown_unit() {
    let objs = Objects::new();
    assert!(unit_paths("cfgid", &objs, "nope.dll").is_err());
    assert_eq!(unit_paths("cfgid", &objs, "nope.dll").unwrap_err().message(), "unknown unit: nope.dll");
}

#[test]
fn unit_paths_rejects_a_unit_without_objects() {
    let objs = one("A.dll", lib("x", &[]));
    assert_eq!(unit_paths("cfgid", &objs, "A.dll").unwrap_err().message(), "unit A.dll declares no objects");
}

/// A library with several objects selects the one whose objdiff unit name
/// matches `src/<unit>`, not merely the first declared.
#[test]
fn unit_paths_select_matching_object_among_several() {
    let objs = one(
        "Multi.dll",
        lib("x", &[("src/other.cpp", Some("other.obj")), ("src/Multi.dll.cpp", Some("Multi.dll.obj"))]),
    );
    let (target, base) = unit_paths("cfgid", &objs, "Multi.dll").unwrap();
    assert_eq!(target, "build/cfgid/delink/Multi.dll/Multi.dll.obj");
    assert_eq!(base, "build/cfgid/obj/Multi.dll/src/Multi.dll.obj");
}

#[test]
fn unit_paths_take_the_first_object_where_none_matches() {
    let objs = one("M.dll", lib("x", &[("src/p.cpp", Some("p.obj")), ("src/q.cpp", Some("q.obj"))]));
    let (target, base) = unit_paths("cfgid", &objs, "M.dll").unwrap();
    assert_eq!(target, "build/cfgid/delink/M.dll/p.obj");
    assert_eq!(base, "build/cfgid/obj/M.dll/src/p.obj");
}

#[test]
fn absent_objects_are_both_named() {
    assert_eq!(
        no_objects_message("u", "t.obj", "b.obj"),
        "no objects for u: neither t.obj nor b.obj exists (run `fl bootstrap`, then `fl build u`)"
    );
}

fn fixture_config() -> Config {
    let mut progress_categories = IndexMap::new();
    progress_categories.insert("A.dll".to_string(), "A.dll".to_string());
    let mut cflags = IndexMap::new();
    cflags.insert("decomp".to_string(), flag_set(None, &["/O2"]));
    cflags.insert("A.dll".to_string(), flag_set(Some("decomp"), &["/D_DLL"]));
    Config {
        progress_categories,
        compiler: "build/msvc6.0/BIN/CL.EXE".to_string(),
        compiler_c: Some("build/msvc6.0/BIN/CL.EXE".to_string()),
        compiler_root: "build/msvc6.0".to_string(),
        sdk_root: "build/msvc6.0".to_string(),
        cflags,
        cxxflags: None,
    }
}

fn fixture_objects() -> Objects {
    one("A.dll", lib("A.dll", &[("src/A.dll.cpp", Some("A.dll.obj"))]))
}

fn inputs(objects: &Objects) -> Vec<Vec<SourceInput>> {
    objects
        .values()
        .map(|lib| {
            lib.objects.keys().map(|src| SourceInput::of(src, vec![])).collect()
        })
        .collect()
}

#[test]
fn write_ninja_emits_compile_rule_and_build_edge() {
    let config = fixture_config();
    let objects = fixture_objects();
    let ninja = write_ninja("cfgid", &config, &objects, &inputs(&objects)).unwrap();
    assert!(ninja.contains("cc = build/msvc6.0/BIN/CL.EXE"));
    assert!(ninja.contains("rule compile_cxx"));
    assert!(ninja.contains("build build/cfgid/obj/A.dll/src/A.dll.obj: compile_cxx ./src/A.dll.cpp"));
    assert!(ninja.contains("cxxflags = /O2 /D_DLL"));
    assert!(ninja.contains("build all: phony"));
    assert!(ninja.contains("build/cfgid/obj/A.dll/src/A.dll.obj"));
}

#[test]
fn a_whole_ninja_file_reads_as_laid_out() {
    let mut config = fixture_config();
    config.compiler = "g++".to_string();
    config.compiler_c = None;
    let objects = one("A.dll", lib("A.dll", &[(r"src\a.c", None), ("src/b.cpp", None)]));
    let given = vec![vec![
        SourceInput::of(r"src\a.c", vec![]),
        SourceInput::of("src/b.cpp", vec!["src/x.h".to_string(), r"src\y.h".to_string()]),
    ]];
    let ninja = write_ninja("id", &config, &objects, &given).unwrap();
    let expected = "cc = g++\n\ncxx = g++\n\n\
        rule compile_c\n  command = $cc $cflags -c $in -o $out\n  description = Compiling $in\n\n\
        rule compile_cxx\n  command = $cxx $cxxflags -c $in -o $out\n  description = Compiling $in\n\n\
        build build/id/obj/A.dll/src/a.obj: compile_c ./src/a.c\n  cflags = /O2 /D_DLL\n\n\
        build build/id/obj/A.dll/src/b.obj: compile_cxx ./src/b.cpp | ./src/x.h ./src/y.h\n  cxxflags = /O2 /D_DLL\n\n\
        build all: phony $\n  build/id/obj/A.dll/src/a.obj $\n  build/id/obj/A.dll/src/b.obj $\n\ndefault all\n";
    assert_eq!(ninja, expected);
}

#[test]
fn msvc_gets_its_own_rules() {
    let objects = Objects::new();
    let ninja = write_ninja("id", &fixture_config(), &objects, &vec![]).unwrap();
    let expected = "cc = build/msvc6.0/BIN/CL.EXE\n\ncxx = build/msvc6.0/BIN/CL.EXE\n\n\
        rule compile_c\n  command = $cc $cflags /c $in \"/Fo$out\"\n  description = Compiling $in\n\n\
        rule compile_cxx\n  command = $cxx $cxxflags /c $in \"/Fo$out\"\n  description = Compiling $in\n\n\
        build all: phony $\n\ndefault all\n";
    assert_eq!(ninja, expected);
}

#[test]
fn build_files_name_an_unknown_set_of_flags() {
    let mut config = fixture_config();
    config.cflags.insert("A.dll".to_string(), flag_set(Some("gone"), &[]));
    let objects = fixture_objects();
    assert!(all_flags_end(&config, &objects));
    assert_eq!(write_ninja("id", &config, &objects, &inputs(&objects)).unwrap_err().name, "gone");
    let files = vec![vec![SourceFile { c_source: false, file: "/r/src/A.dll.cpp".to_string() }]];
    assert_eq!(write_compile_commands(&config, &objects, "/r", &files).err().unwrap().name, "gone");
    config.cflags.insert("A.dll".to_string(), flag_set(Some("A.dll"), &[]));
    assert!(!all_flags_end(&config, &objects));
}

#[test]
fn write_objdiff_builds_expected_unit() {
    let config = fixture_config();
    let objects = fixture_objects();
    let file = write_objdiff("cfgid", &config, &objects);
    assert_eq!(file.units.len(), 1);
    let unit = &file.units[0];
    assert_eq!(unit.name, "src/A.dll");
    assert_eq!(unit.target_path, "build/cfgid/delink/A.dll/A.dll.obj");
    assert_eq!(unit.base_path, "build/cfgid/obj/A.dll/src/A.dll.obj");
    assert_eq!(unit.metadata.source_path, "./src/A.dll.cpp");
    assert_eq!(unit.metadata.progress_categories, vec!["A.dll"]);
    assert!(!unit.metadata.complete && !unit.metadata.reverse_fn_order && !unit.metadata.auto_generated);
    assert_eq!(file.min_version, "2.0.0-beta.5");
    assert_eq!(file.custom_make, "ninja");
    assert!(!file.build_target);
    assert_eq!(
        file.watch_patterns,
        vec!["*.c", "*.cp", "*.cpp", "*.h", "*.hpp", "*.inc", "*.py", "*.yml", "*.txt", "*.json"]
    );
    assert_eq!(file.progress_categories.len(), 1);
    assert_eq!((file.progress_categories[0].id.as_str(), file.progress_categories[0].name.as_str()), ("A.dll", "A.dll"));
}

#[test]
fn listed_units_are_what_unit_paths_resolve_to() {
    let mut objects = one(
        "Multi.dll",
        lib("x", &[("src/other.cpp", Some("other.obj")), ("src/Multi.dll.cpp", Some("Multi.dll.obj"))]),
    );
    objects.insert("A.dll".to_string(), lib("y", &[("src/A.dll.cpp", None)]));
    let file = write_objdiff("id", &fixture_config(), &objects);
    assert_eq!(file.units.len(), 3);
    for (unit, k) in [("Multi.dll", 1), ("A.dll", 2)] {
        let (target, base) = unit_paths("id", &objects, unit).unwrap();
        assert_eq!((&file.units[k].target_path, &file.units[k].base_path), (&target, &base));
        assert_eq!(file.units[k].name, format!("src/{unit}"));
    }
}

#[test]
fn compile_commands_carry_the_flags_without_quotes() {
    let mut config = fixture_config();
    config.compiler_c = Some("cc.exe".to_string());
    config.cflags.insert("A.dll".to_string(), flag_set(None, &["\"/I $(SDK_ROOT)\"", "/G6"]));
    let objects = one("A.dll", lib("A.dll", &[("src/a.c", None), ("src/b.cpp", None)]));
    let files = vec![vec![
        SourceFile::of("src/a.c", "/r/src/a.c".to_string()),
        SourceFile::of("src/b.cpp", "/r/src/b.cpp".to_string()),
    ]];
    let commands = write_compile_commands(&config, &objects, "/r", &files).unwrap_or_else(|e| panic!("{}", e.name));
    assert_eq!(commands.len(), 2);
    assert_eq!(commands[0].directory, "/r");
    assert_eq!(commands[0].file, "/r/src/a.c");
    assert_eq!(commands[0].arguments, vec!["cc.exe", "/c", "/I build/msvc6.0", "/G6", "/r/src/a.c"]);
    assert_eq!(
        commands[1].arguments,
        vec!["build/msvc6.0/BIN/CL.EXE", "/c", "/I build/msvc6.0", "/G6", "/r/src/b.cpp"]
    );
    config.compiler = "clang++".to_string();
    let commands = write_compile_commands(&config, &objects, "/r", &files).unwrap_or_else(|e| panic!("{}", e.name));
    assert_eq!(commands[1].arguments[..2], ["clang++", "-c"]);
}

#[test]
fn local_includes_are_told_from_others() {
    assert_eq!(parse_local_include("#include \"a.h\"").as_deref(), Some("a.h"));
    assert_eq!(parse_local_include("  #  include\t\"../b.h\" // c").as_deref(), Some("../b.h"));
    assert_eq!(parse_local_include("#include\"\"").as_deref(), Some(""));
    assert_eq!(parse_local_include("#include <a.h>"), None);
    assert_eq!(parse_local_include("// #include \"a.h\""), None);
    assert_eq!(parse_local_include("#include \"open"), None);
    assert_eq!(parse_local_include("#includ \"a.h\""), None);
    assert_eq!(local_includes("#include \"a\"\r\nx\n#include \"b\""), vec!["a", "b"]);
}

fn parts(path: &Path) -> Vec<PathPart> {
    path.components()
        .map(|c| match c {
            Component::Prefix(p) => PathPart::Prefix(p.as_os_str().to_string_lossy().into_owned()),
            Component::RootDir => PathPart::RootDir,
            Component::CurDir => PathPart::CurDir,
            Component::ParentDir => PathPart::ParentDir,
            Component::Normal(n) => PathPart::Normal(n.to_string_lossy().into_owned()),
        })
        .collect()
}

fn join(base: &Path, rel: &str) -> PathBuf {
    let collapsed = collapse(parts(Path::new(rel)));
    let mut path = base.to_path_buf();
    for _ in 0..collapsed.up {
        path.pop();
    }
    for part in &collapsed.down {
        match part {
            PathPart::Prefix(p) => path.push(p),
            PathPart::RootDir => path.push("/"),
            PathPart::CurDir | PathPart::ParentDir => unreachable!(),
            PathPart::Normal(n) => path.push(n),
        }
    }
    path
}

#[test]
fn lexical_absolute_does_not_require_existence() {
    assert_eq!(join(Path::new("/cwd"), "does/not/exist.cpp"), PathBuf::from("/cwd/does/not/exist.cpp"));
}

#[test]
fn lexical_absolute_handles_dot() {
    assert_eq!(join(Path::new("/cwd"), "."), PathBuf::from("/cwd"));
}

#[test]
fn dots_collapse() {
    let base = Path::new("src/a");
    assert_eq!(join(base, "../shared/util.cpp"), PathBuf::from("src/shared/util.cpp"));
    assert_eq!(join(base, "./x/../../b/./c.h"), PathBuf::from("src/b/c.h"));
    assert_eq!(join(base, "../../../x"), PathBuf::from("x"));
    assert_eq!(join(base, "/etc/../x"), PathBuf::from("/x"));
    assert_eq!(join(Path::new("/"), "../../x/.."), PathBuf::from("/"));
}

/// Runs a scan over files given as (path, text).
fn scan(files: &[(&str, &str)], entrypoint: &str) -> Vec<String> {
    let mut scan = IncludeScan::new(entrypoint);
    let mut read = 0;
    while let Some(path) = scan.next_file() {
        read += 1;
        assert!(read <= files.len() + 1, "a file was handed out twice");
        let Some((_, text)) = files.iter().find(|(p, _)| *p == path) else {
            continue;
        };
        let dir = Path::new(&path).parent().unwrap().to_path_buf();
        scan.scan_text(&path, text, |rel: &str| {
            let resolved = join(&dir, rel).to_string_lossy().into_owned();
            if files.iter().any(|(p, _)| *p == resolved) { Some(resolved) } else { None }
        });
    }
    scan.dependencies()
}

#[test]
fn scans_direct_transitive_and_relative_includes() {
    let deps = scan(
        &[
            ("src/x86math.dll/x86math.dll.cpp", "#include \"quaternion.cpp\"\n#include <windows.h>\n// #include \"skip.cpp\"\n#include \"../shared/util.cpp\"\n#include \"nope.cpp\"\n"),
            ("src/x86math.dll/quaternion.cpp", "#include \"quaternion.h\"\nint q(){return 1;}\n"),
            ("src/x86math.dll/quaternion.h", "int q();\n"),
            ("src/shared/util.cpp", "int u(){return 2;}\n"),
        ],
        "src/x86math.dll/x86math.dll.cpp",
    );
    assert_eq!(deps.len(), 3, "got {deps:?}");
    assert!(deps[0].ends_with("src/shared/util.cpp"), "got {:?}", deps[0]);
    assert!(deps[1].ends_with("src/x86math.dll/quaternion.cpp"), "got {:?}", deps[1]);
    assert!(deps[2].ends_with("src/x86math.dll/quaternion.h"), "got {:?}", deps[2]);
}

#[test]
fn ignores_angle_brackets_comments_and_missing() {
    let deps = scan(
        &[("src/a/a.cpp", "#include <string.h>\n// #include \"c.cpp\"\n#include \"missing.cpp\"\n")],
        "src/a/a.cpp",
    );
    assert!(deps.is_empty(), "expected no deps, got {deps:?}");
}

#[test]
fn is_cycle_safe() {
    let deps = scan(
        &[("src/a/a.cpp", "#include \"b.cpp\"\n"), ("src/a/b.cpp", "#include \"a.cpp\"\n")],
        "src/a/a.cpp",
    );
    assert_eq!(deps.len(), 1, "got {deps:?}");
    assert!(deps[0].ends_with("src/a/b.cpp"), "got {:?}", deps[0]);
}

#[test]
fn missing_entrypoint_yields_empty() {
    let deps = scan(&[], "does/not/exist.cpp");
    assert!(deps.is_empty());
}

#[test]
fn a_scan_knows_files_by_their_forward_slash_paths() {
    let resolve = |rel: &str| Some(rel.to_string());
    let mut scan = IncludeScan::new(r"src\a.cpp");
    assert_eq!(scan.next_file().as_deref(), Some(r"src\a.cpp"));
    scan.scan_text("src/a.cpp", "#include \"src/a.cpp\"", resolve);
    assert_eq!(scan.next_file(), None);
    scan.scan_text("src/a.cpp", "#include \"src\\b.h\"\n#include \"src/b.h\"", resolve);
    assert_eq!(scan.next_file().as_deref(), Some(r"src\b.h"));
    assert_eq!(scan.next_file(), None);
    assert_eq!(scan.dependencies(), vec!["src/b.h"]);
}

#[test]
fn a_scan_goes_depth_first() {
    let files = [("a", "b c"), ("b", "d e"), ("c", "f"), ("d", "c"), ("e", "a"), ("f", "")];
    let mut scan = IncludeScan::new("a");
    let mut order = Vec::new();
    while let Some(path) = scan.next_file() {
        let (_, pulled) = files.iter().find(|(p, _)| *p == path).unwrap();
        let text: String = pulled.split_whitespace().map(|p| format!("#include \"{p}\"\n")).collect();
        scan.scan_text(&path, &text, |rel: &str| Some(rel.to_string()));
        order.push(path);
    }
    assert_eq!(order, vec!["a", "b", "d", "c", "f", "e"]);
    assert_eq!(scan.dependencies(), vec!["b", "c", "d", "e", "f"]);
}

/// Two files that differ only in how their slashes lean share a path; the one
/// that is met first is read.
#[test]
fn the_first_of_two_files_with_one_path_is_read() {
    let mut scan = IncludeScan::new("a");
    assert_eq!(scan.next_file().as_deref(), Some("a"));
    scan.scan_text("a", "#include \"x\"\n#include \"d/b.h\"", |rel: &str| Some(rel.to_string()));
    assert_eq!(scan.next_file().as_deref(), Some("x"));
    scan.scan_text("x", "#include \"d\\b.h\"", |rel: &str| Some(rel.to_string()));
    assert_eq!(scan.next_file().as_deref(), Some(r"d\b.h"));
    assert_eq!(scan.next_file(), None);
}
