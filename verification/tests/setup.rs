use flboot::bootstrap::{
    delink_args, delink_plan, missing_input, resolve_binary, resolve_delink, resolve_ninja, resolve_objdiff,
    resolve_objdiff_cli, resolve_seven_zip, resolve_tool, scaffold_sources, split_plan, split_summary, stub_content, stub_list,
    unpack_args, verify_orig, OrigFile, SplitRun, Stub, ToolError, ToolMiss, ToolPath,
};
use flboot::dev::Platform;
use flboot::fetch::{
    check_download, check_present, download_message, eq_ignoring_case, hex_text, judge_digest, judge_download,
    judge_present, sha1_text, verify_hash, FileState, Present, Verdict,
};
use flboot::manifest::{
    orig_path, tools_path, BinaryEntry, BinaryTool, Msvc6, OrigManifest, SevenZip, SevenZipLinux, SevenZipWindows,
    ToolsManifest, ZipEntry, ZipTool,
};
use flboot::model::{LibEntry, Objects};
use flboot::root::find_repo_root_from;
use indexmap::IndexMap;
use std::cell::{Cell, RefCell};
use std::collections::BTreeMap;
use std::path::PathBuf;

fn strings(items: &[&str]) -> Vec<String> {
    items.iter().map(|s| s.to_string()).collect()
}

/// The path of a resolved tool.
fn path(r: Result<ToolPath<PathBuf>, ToolError<String>>) -> Result<PathBuf, String> {
    match r {
        Ok(ToolPath::Overridden(p)) => Ok(PathBuf::from(p)),
        Ok(ToolPath::Found(_, p)) => Ok(p),
        Ok(ToolPath::Fixed(p)) => Ok(PathBuf::from(p)),
        Err(ToolError::NotBootstrapped(e)) => Err(e),
        Err(ToolError::Download(e)) => Err(e),
    }
}

#[test]
fn finds_candidate_on_path_without_downloading() {
    let downloaded = Cell::new(false);
    let result = resolve_tool(
        &strings(&["ninja"]),
        |name: &str| if name == "ninja" { Some(PathBuf::from("/usr/bin/ninja")) } else { None },
        "build/tools/ninja",
        ToolMiss::Download,
        |_: &str| unreachable!(),
        |_: &str| {
            downloaded.set(true);
            Ok(())
        },
    );
    assert_eq!(path(result).unwrap(), PathBuf::from("/usr/bin/ninja"));
    assert!(!downloaded.get());
}

#[test]
fn downloads_when_path_lookup_misses_and_mode_is_download() {
    let downloaded = Cell::new(false);
    let fixed = "build/tools/ninja";
    let result = resolve_tool(
        &strings(&["ninja"]),
        |_: &str| None,
        fixed,
        ToolMiss::Download,
        |_: &str| unreachable!(),
        |path: &str| {
            downloaded.set(true);
            assert_eq!(path, fixed);
            Ok(())
        },
    );
    assert_eq!(path(result).unwrap(), PathBuf::from(fixed));
    assert!(downloaded.get());
}

#[test]
fn errors_when_require_bootstrapped_and_fixed_path_absent() {
    let result = resolve_tool(
        &strings(&["ninja"]),
        |_: &str| None,
        "does/not/exist/ninja",
        ToolMiss::RequireBootstrapped,
        |_: &str| false,
        |_: &str| unreachable!("download must not be called in RequireBootstrapped mode"),
    );
    assert_eq!(
        path(result).unwrap_err(),
        "ninja not found on PATH or at does/not/exist/ninja; run `flboot bootstrap` first"
    );
}

#[test]
fn returns_fixed_path_when_require_bootstrapped_and_it_exists() {
    let result = resolve_tool(
        &strings(&["ninja"]),
        |_: &str| None,
        "tools/ninja",
        ToolMiss::RequireBootstrapped,
        |p: &str| p == "tools/ninja",
        |_: &str| unreachable!("download must not be called in RequireBootstrapped mode"),
    );
    assert_eq!(path(result).unwrap(), PathBuf::from("tools/ninja"));
}

#[test]
fn a_tool_without_names_is_found_at_its_fixed_path() {
    let result = resolve_tool(
        &vec![],
        |_: &str| unreachable!(),
        "tools/x",
        ToolMiss::RequireBootstrapped,
        |_: &str| true,
        |_: &str| unreachable!(),
    );
    assert_eq!(path(result).unwrap(), PathBuf::from("tools/x"));
}

#[test]
fn the_first_name_on_the_path_wins() {
    let asked = Cell::new(0);
    let result: Result<ToolPath<String>, ToolError<String>> = resolve_tool(
        &strings(&["a", "b", "c"]),
        |name: &str| {
            asked.set(asked.get() + 1);
            if name == "a" { None } else { Some(format!("/bin/{name}")) }
        },
        "x",
        ToolMiss::RequireBootstrapped,
        |_: &str| unreachable!(),
        |_: &str| unreachable!(),
    );
    assert!(matches!(result, Ok(ToolPath::Found(1, p)) if p == "/bin/b"));
    assert_eq!(asked.get(), 2);
}

#[test]
fn a_failed_download_is_passed_on() {
    let result: Result<ToolPath<String>, ToolError<String>> = resolve_tool(
        &vec![],
        |_: &str| None,
        "x",
        ToolMiss::Download,
        |_: &str| unreachable!(),
        |_: &str| Err("no network".to_string()),
    );
    assert!(matches!(result, Err(ToolError::Download(e)) if e == "no network"));
}

fn binary(name: &str) -> BinaryTool {
    let entry = |suffix: &str| BinaryEntry {
        url: format!("https://x/{name}"),
        sha1: None,
        dest: format!("build/tools/{name}-{suffix}"),
    };
    BinaryTool { path_names: vec![name.to_string()], windows: entry("windows-x86_64.exe"), linux: entry("linux-x86_64") }
}

fn tools_fixture() -> ToolsManifest {
    let zip = |entry: &str, dest: &str| ZipEntry {
        url: "https://x/ninja.zip".to_string(),
        sha1: None,
        archive: "build/tools/ninja.zip".to_string(),
        entry: entry.to_string(),
        dest: dest.to_string(),
    };
    ToolsManifest {
        delink: binary("delink"),
        objdiff_cli: binary("objdiff-cli"),
        objdiff: binary("objdiff"),
        ninja: ZipTool {
            path_names: strings(&["ninja"]),
            windows: zip("ninja.exe", "build/tools/ninja.exe"),
            linux: zip("ninja", "build/tools/ninja"),
        },
        msvc6: Msvc6 {
            url: "https://x/msvc6.tar.gz".to_string(),
            sha1: None,
            dest_dir: "build/msvc6.0".to_string(),
            sentinel: "Bin/CL.EXE".to_string(),
        },
        seven_zip: SevenZip {
            path_names: strings(&["7zz", "7z"]),
            windows: SevenZipWindows {
                msi_url: "https://x/7z.msi".to_string(),
                msi_dest: "build/tools/7z.msi".to_string(),
                extract_dir: "build/tools/7z".to_string(),
                exe_subpath: "Files/7-Zip/7z.exe".to_string(),
            },
            linux: SevenZipLinux {
                url: "https://x/7z.tar.xz".to_string(),
                sha1: Some("ii".to_string()),
                archive: "build/tools/7z.tar.xz".to_string(),
                extract_dir: "build/tools/7z".to_string(),
                dest: "build/tools/7z/7zzs".to_string(),
            },
        },
    }
}

#[test]
fn binary_tool_current_returns_target_platform_entry() {
    let m = tools_fixture();
    assert_eq!(m.delink.current(Platform::Windows).dest, "build/tools/delink-windows-x86_64.exe");
    assert_eq!(m.delink.current(Platform::Linux).dest, "build/tools/delink-linux-x86_64");
    assert_eq!(m.ninja.current(Platform::Windows).entry, "ninja.exe");
    assert_eq!(m.ninja.current(Platform::Linux).entry, "ninja");
}

#[test]
fn seven_zip_dest_is_platform_specific() {
    let m = tools_fixture();
    let dest = |platform| m.seven_zip.dest(platform).iter().collect::<PathBuf>();
    assert_eq!(dest(Platform::Windows), PathBuf::from("build/tools/7z").join("Files/7-Zip/7z.exe"));
    assert_eq!(dest(Platform::Linux), PathBuf::from("build/tools/7z/7zzs"));
}

#[test]
fn tools_go_to_their_own_places() {
    let m = tools_fixture();
    let none = |_: &str| None::<PathBuf>;
    let there = |_: &str| true;
    let never = |_: &str| -> Result<(), String> { unreachable!() };
    let miss = ToolMiss::RequireBootstrapped;
    let linux = Platform::Linux;
    let windows = Platform::Windows;
    assert_eq!(
        path(resolve_delink(&m, None, linux, miss, none, there, never)).unwrap(),
        PathBuf::from("build/tools/delink-linux-x86_64")
    );
    assert_eq!(
        path(resolve_objdiff_cli(&m, None, windows, miss, none, there, never)).unwrap(),
        PathBuf::from("build/tools/objdiff-cli-windows-x86_64.exe")
    );
    assert_eq!(
        path(resolve_objdiff(&m, linux, miss, none, there, never)).unwrap(),
        PathBuf::from("build/tools/objdiff-linux-x86_64")
    );
    assert_eq!(
        path(resolve_ninja(&m, windows, miss, none, there, never)).unwrap(),
        PathBuf::from("build/tools/ninja.exe")
    );
    assert_eq!(path(resolve_seven_zip(&m, "at/7z", miss, none, there, never)).unwrap(), PathBuf::from("at/7z"));
}

#[test]
fn an_overridden_tool_is_not_looked_for() {
    let m = tools_fixture();
    let result: Result<ToolPath<String>, ToolError<String>> = resolve_binary(
        &m.delink,
        Some("my/delink"),
        Platform::Linux,
        ToolMiss::Download,
        |_: &str| unreachable!(),
        |_: &str| unreachable!(),
        |_: &str| unreachable!(),
    );
    assert!(matches!(result, Ok(ToolPath::Overridden(p)) if p == "my/delink"));
}

#[test]
fn manifest_paths() {
    assert_eq!(tools_path(), "config/tools.json");
    assert_eq!(orig_path("id"), "config/id/orig.json");
}

#[test]
fn sha1_file_matches_known_digest() {
    assert_eq!(sha1_text(&b"abc".to_vec()), "a9993e364706816aba3e25717850c26c9cd0d89d");
    assert_eq!(sha1_text(&vec![]), "da39a3ee5e6b4b0d3255bfef95601890afd80709");
}

#[test]
fn bytes_read_in_hexadecimal() {
    assert_eq!(hex_text(&vec![0, 15, 16, 255, 171]), "000f10ffab");
}

#[test]
fn verify_hash_ok_on_match() {
    let state = FileState::Content(b"abc".to_vec());
    let result = verify_hash(true, "known.txt", &state, "a9993e364706816aba3e25717850c26c9cd0d89d");
    assert!(matches!(result, Verdict::Verified(s) if s == "known.txt sha1 verified"));
    let result = verify_hash(true, "known.txt", &state, "A9993E364706816ABA3E25717850C26C9CD0D89D");
    assert!(matches!(result, Verdict::Verified(_)));
}

#[test]
fn verify_hash_errors_on_mismatch_when_required() {
    let state = FileState::Content(b"abc".to_vec());
    let result = verify_hash(true, "known.txt", &state, "DEADbeefdeadbeefdeadbeefdeadbeefdeadbeef");
    let message = "known.txt sha1 invalid expected:deadbeefdeadbeefdeadbeefdeadbeefdeadbeef \
                   actual:a9993e364706816aba3e25717850c26c9cd0d89d";
    assert!(matches!(result, Verdict::Failed(s) if s == message));
    let result = verify_hash(false, "known.txt", &state, "deadbeef");
    assert!(matches!(result, Verdict::Warned(_)));
}

#[test]
fn verify_hash_warns_without_erroring_when_optional() {
    let expected = "deadbeefdeadbeefdeadbeefdeadbeefdeadbeef";
    let result = verify_hash(false, "missing.txt", &FileState::Missing, expected);
    assert!(matches!(result, Verdict::Warned(s) if s == "missing required file: missing.txt"));
    let result = verify_hash(true, "missing.txt", &FileState::Missing, expected);
    assert!(matches!(result, Verdict::Failed(_)));
}

#[test]
fn an_unreadable_file_fails_even_when_optional() {
    let state = FileState::Unreadable("opening x: denied".to_string());
    assert!(matches!(verify_hash(false, "x", &state, "aa"), Verdict::Failed(s) if s == "opening x: denied"));
}

#[test]
fn a_digest_is_judged_in_lower_case() {
    assert!(matches!(judge_digest(true, "p", "AB", "ab", "ab"), Verdict::Verified(_)));
    let result = judge_digest(true, "p", "AB", "ab", "cd");
    assert!(matches!(result, Verdict::Failed(s) if s == "p sha1 invalid expected:cd actual:AB"));
}

#[test]
fn case_is_ignored_for_ascii_letters_only() {
    assert!(eq_ignoring_case("aZ09é", "Az09é"));
    assert!(!eq_ignoring_case("é", "É"));
    assert!(!eq_ignoring_case("a", "ab"));
    for a in 0..128u8 {
        for b in 0..128u8 {
            let (a, b) = ((a as char).to_string(), (b as char).to_string());
            assert_eq!(eq_ignoring_case(&a, &b), a.eq_ignore_ascii_case(&b));
        }
    }
}

#[test]
fn a_present_file_is_kept_by_its_hash() {
    let data = b"abc".to_vec();
    let hash = "A9993E364706816ABA3E25717850C26C9CD0D89D";
    assert!(matches!(check_present("d", &data, Some(hash)), Present::Keep(s) if s == "d already present and verified"));
    assert!(matches!(check_present("d", &data, None), Present::Keep(s) if s == "d already present"));
    assert!(
        matches!(check_present("d", &data, Some("00")), Present::Replace(s) if s == "sha1 mismatch for d, re-acquiring")
    );
    assert!(matches!(judge_present("d", "aa", Some("AA")), Present::Keep(_)));
}

#[test]
fn a_download_is_checked_against_its_hash() {
    let data = b"abc".to_vec();
    let hash = "a9993e364706816aba3e25717850c26c9cd0d89d";
    assert_eq!(check_download("d", &data, Some(hash)).unwrap(), "d downloaded and verified");
    assert_eq!(check_download("d", &data, None).unwrap(), "d downloaded");
    assert_eq!(
        check_download("d", &data, Some("00")).unwrap_err(),
        format!("sha1 mismatch for d: expected 00, got {hash}")
    );
    assert_eq!(judge_download("d", "ab", Some("cd")).unwrap_err(), "sha1 mismatch for d: expected cd, got ab");
    assert_eq!(download_message("u", "d"), "downloading u -> d");
}

fn lib(sources: &[&str]) -> LibEntry {
    let mut objects = IndexMap::new();
    for src in sources {
        objects.insert(src.to_string(), None);
    }
    LibEntry {
        progress_category: "x".to_string(),
        cflags: "x".to_string(),
        idapro: "x.idb".to_string(),
        delink: None,
        binary: None,
        objects,
    }
}

#[test]
fn stub_names_module_and_shows_commented_include() {
    let stub = stub_content("x86math.dll");
    assert!(stub.contains("x86math.dll"), "stub: {stub:?}");
    assert!(stub.contains("// #include \""), "stub: {stub:?}");
    for line in stub.lines().filter(|l| !l.trim().is_empty()) {
        assert!(line.trim_start().starts_with("//"), "non-comment line: {line:?}");
    }
}

#[test]
fn a_stub_reads_as_laid_out() {
    let expected = "// m\n//\n// Unity build entrypoint. Include this module's source files here, e.g.:\n\
                    // #include \"quaternion.cpp\"\n";
    assert_eq!(stub_content("m"), expected);
}

#[test]
fn every_source_has_a_stub_of_its_library() {
    let mut objects = Objects::new();
    objects.insert("a.dll".to_string(), lib(&["src/a.cpp", "src/a2.cpp"]));
    objects.insert("b.dll".to_string(), lib(&["src/b/b.cpp"]));
    let stubs = stub_list(&objects);
    let sources: Vec<&str> = stubs.iter().map(|s| s.src.as_str()).collect();
    assert_eq!(sources, vec!["src/a.cpp", "src/a2.cpp", "src/b/b.cpp"]);
    assert_eq!(stubs[1].content, stub_content("a.dll"));
    assert_eq!(stubs[2].content, stub_content("b.dll"));
}

/// Scaffolds sources among files in memory.
fn scaffold(files: &RefCell<BTreeMap<String, String>>, objects: &Objects) -> Result<Vec<String>, String> {
    scaffold_sources(
        objects,
        |src: &str| files.borrow().contains_key(src),
        |stub: &Stub| {
            files.borrow_mut().insert(stub.src.clone(), stub.content.clone());
            Ok(())
        },
    )
}

fn one_lib_objects(src: &str) -> Objects {
    let mut objects = Objects::new();
    objects.insert("x86math.dll".to_string(), lib(&[src]));
    objects
}

#[test]
fn creates_missing_entrypoint_with_stub_content() {
    let files = RefCell::new(BTreeMap::new());
    let objects = one_lib_objects("src/x86math.dll.cpp");
    let created = scaffold(&files, &objects).unwrap();
    assert_eq!(created, vec!["src/x86math.dll.cpp".to_string()]);
    assert_eq!(files.borrow()["src/x86math.dll.cpp"], stub_content("x86math.dll"));
    assert!(scaffold(&files, &objects).unwrap().is_empty());
}

#[test]
fn never_overwrites_existing_source() {
    let files = RefCell::new(BTreeMap::new());
    files.borrow_mut().insert("src/x86math.dll.cpp".to_string(), "REAL DECOMP CODE".to_string());
    let created = scaffold(&files, &one_lib_objects("src/x86math.dll.cpp")).unwrap();
    assert!(created.is_empty(), "should not report an untouched file: {created:?}");
    assert_eq!(files.borrow()["src/x86math.dll.cpp"], "REAL DECOMP CODE");
}

#[test]
fn a_source_of_two_libraries_is_created_once() {
    let mut objects = Objects::new();
    objects.insert("a.dll".to_string(), lib(&["src/shared.cpp", "src/a.cpp"]));
    objects.insert("b.dll".to_string(), lib(&["src/shared.cpp"]));
    let files = RefCell::new(BTreeMap::new());
    assert_eq!(scaffold(&files, &objects).unwrap(), vec!["src/shared.cpp", "src/a.cpp"]);
    assert_eq!(files.borrow()["src/shared.cpp"], stub_content("a.dll"));
}

#[test]
fn a_stub_that_cannot_be_created_ends_the_scaffolding() {
    let mut objects = Objects::new();
    objects.insert("a.dll".to_string(), lib(&["there", "bad", "never"]));
    let result = scaffold_sources(
        &objects,
        |src: &str| src == "there",
        |stub: &Stub| if stub.src == "bad" { Err("denied".to_string()) } else { unreachable!() },
    );
    assert_eq!(result.unwrap_err(), "denied");
}

#[test]
fn a_library_is_delinked_by_its_plan() {
    let mut objects = Objects::new();
    objects.insert("a.dll".to_string(), lib(&[]));
    let mut other = lib(&[]);
    other.delink = Some("common".to_string());
    other.binary = Some("bin/b.exe".to_string());
    objects.insert("b.dll".to_string(), other);
    let plan = delink_plan(&objects, "id", "a.dll").unwrap_or_else(|e| panic!("{}", e.message()));
    assert_eq!(plan.binary, "orig/id/a.dll");
    assert_eq!(
        delink_args(&plan, "/abs/a.dll"),
        vec![
            "ida-split",
            "config/id/delink/a.dll.delink.json",
            "/abs/a.dll",
            "--idapro",
            "x.idb",
            "-o",
            "build/id/delink/a.dll",
        ]
    );
    let e = delink_plan(&objects, "id", "c.dll").err().unwrap();
    assert_eq!(e.message(), "unknown unit: c.dll");
    let plans = split_plan(&objects, "id");
    assert_eq!(plans.len(), 2);
    assert_eq!((plans[1].unit.as_str(), plans[1].plan.binary.as_str()), ("b.dll", "bin/b.exe"));
    assert_eq!(plans[1].plan.outdir, "build/id/delink/common");
}

#[test]
fn the_first_missing_input_is_told() {
    let mut objects = Objects::new();
    objects.insert("a.dll".to_string(), lib(&[]));
    let plan = delink_plan(&objects, "id", "a.dll").unwrap_or_else(|e| panic!("{}", e.message()));
    assert_eq!(
        missing_input(&plan, false, false, false).unwrap(),
        "missing export config/id/delink/a.dll.delink.json"
    );
    assert_eq!(missing_input(&plan, true, false, false).unwrap(), "missing idapro x.idb");
    assert_eq!(missing_input(&plan, true, true, false).unwrap(), "missing binary orig/id/a.dll");
    assert_eq!(missing_input(&plan, true, true, true), None);
}

#[test]
fn a_split_is_summed_up() {
    let failures = vec![("a".to_string(), "why".to_string()), ("b".to_string(), "so".to_string())];
    let summary = split_summary(12, &failures);
    assert_eq!(summary.info, "split phase: 10/12 libraries ok");
    assert_eq!(summary.errors, vec!["2 failures:", "  a: why", "  b: so"]);
    let summary = split_summary(3, &vec![]);
    assert_eq!(summary.info, "split phase: 3/3 libraries ok");
    assert!(summary.errors.is_empty());
}

#[test]
fn a_failed_library_does_not_end_the_run() {
    let mut objects = Objects::new();
    for name in ["a.dll", "b.dll", "c.dll"] {
        objects.insert(name.to_string(), lib(&[]));
    }
    let mut run = SplitRun::new(&objects, "id");
    let mut tried = Vec::new();
    while let Some(split) = run.current() {
        let unit = split.unit.clone();
        run.record(if unit == "b.dll" { Some("broken".to_string()) } else { None });
        tried.push(unit);
    }
    assert_eq!(tried, vec!["a.dll", "b.dll", "c.dll"]);
    let summary = run.summary();
    assert_eq!(summary.info, "split phase: 2/3 libraries ok");
    assert_eq!(summary.errors, vec!["1 failures:", "  b.dll: broken"]);
}

fn orig(hashes: &[(&str, &str)]) -> OrigManifest {
    let mut binaries = IndexMap::new();
    for (name, hash) in hashes {
        binaries.insert(name.to_string(), hash.to_string());
    }
    OrigManifest { archive_url: "https://x/orig.7z".to_string(), binaries }
}

#[test]
fn originals_are_verified_until_one_fails() {
    let hash = "A9993E364706816ABA3E25717850C26C9CD0D89D";
    let file = |path: &str, data: Option<&[u8]>| OrigFile {
        path: path.to_string(),
        state: match data {
            Some(d) => FileState::Content(d.to_vec()),
            None => FileState::Missing,
        },
    };
    let manifest = orig(&[("a", hash), ("b", hash), ("c", hash)]);
    let verdicts = verify_orig(&manifest, |name: &str| match name {
        "a" => file("orig/a", Some(b"abc")),
        "b" => file("orig/b", None),
        _ => unreachable!("nothing is read after a failure"),
    });
    assert_eq!(verdicts.len(), 2);
    assert!(matches!(&verdicts[0], Verdict::Verified(s) if s == "orig/a sha1 verified"));
    assert!(matches!(&verdicts[1], Verdict::Failed(s) if s == "missing required file: orig/b"));
    let verdicts = verify_orig(&manifest, |name: &str| file(name, Some(b"abc")));
    assert_eq!(verdicts.len(), 3);
    assert!(verdicts.iter().all(|v| matches!(v, Verdict::Verified(_))));
}

#[test]
fn the_unpacker_is_told_where_to_unpack() {
    assert_eq!(unpack_args("a.7z", "orig/id"), vec!["x", "a.7z", "-oorig/id", "-y"]);
}

#[test]
fn finds_git_dir_in_ancestor() {
    let dirs = strings(&["/base/tools/flboot", "/base/tools", "/base", "/"]);
    assert_eq!(find_repo_root_from(&dirs, |dir: &String| dir == "/base"), Some(2));
    assert_eq!(find_repo_root_from(&dirs, |dir: &String| dir == "/base" || dir == "/"), Some(2));
    assert_eq!(find_repo_root_from(&dirs, |_: &String| false), None);
}
