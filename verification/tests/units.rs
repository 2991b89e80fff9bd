use flboot::dev::{
    build_targets, compile_argv, compile_command, compile_output_path, compile_step, compile_steps, needs_wine, norm_unit,
    norm_units, obj_target, shlex_split_non_posix, strip_arg_quotes, symbol_key, Platform,
};
use flboot::model::{LibEntry, Objects};
use indexmap::IndexMap;

fn lib(name: &str, sources: &[(&str, Option<&str>)]) -> LibEntry {
    let mut objects = IndexMap::new();
    for (src, target) in sources {
        objects.insert(src.to_string(), target.map(|t| t.to_string()));
    }
    LibEntry {
        progress_category: name.to_string(),
        cflags: name.to_string(),
        idapro: format!("config/x/splits/{name}.json"),
        delink: None,
        binary: None,
        objects,
    }
}

fn fixture_objects() -> Objects {
    let mut objects = Objects::new();
    objects.insert(
        "x86math.dll".to_string(),
        lib("x86math.dll", &[("src/x86math.dll.cpp", Some("x86math.dll.obj"))]),
    );
    objects
}

fn strings(items: &[&str]) -> Vec<String> {
    items.iter().map(|s| s.to_string()).collect()
}

#[test]
fn resolves_bare_name_via_dot_split() {
    let objects = fixture_objects();
    assert_eq!(norm_unit(&objects, "x86math").unwrap(), "x86math.dll");
}

#[test]
fn resolves_exact_key() {
    let objects = fixture_objects();
    assert_eq!(norm_unit(&objects, "x86math.dll").unwrap(), "x86math.dll");
}

#[test]
fn resolves_source_path_with_backslashes() {
    let objects = fixture_objects();
    assert_eq!(norm_unit(&objects, r"src\x86math.dll.cpp").unwrap(), "x86math.dll");
}

#[test]
fn errors_on_unknown_unit() {
    let objects = fixture_objects();
    assert!(norm_unit(&objects, "nonexistent").is_err());
}

#[test]
fn obj_target_matches_obj_scheme() {
    assert_eq!(obj_target("052103", "x86math.dll"), "build/052103/obj/x86math.dll/src/x86math.dll.obj");
}

#[test]
fn shlex_split_keeps_quotes_and_splits_unquoted_whitespace() {
    let line = r#"cl.exe /O2 /Gs "/Fobuild/052103/obj/x86math.dll/src/x86math.dll.obj" ./src/x86math.dll.cpp"#;
    let tokens = shlex_split_non_posix(line);
    assert_eq!(
        tokens,
        vec![
            "cl.exe",
            "/O2",
            "/Gs",
            "\"/Fobuild/052103/obj/x86math.dll/src/x86math.dll.obj\"",
            "./src/x86math.dll.cpp",
        ]
    );
}

#[test]
fn shlex_split_preserves_whitespace_inside_quotes() {
    let line = r#"cl.exe "/I C:/path with space/include""#;
    let tokens = shlex_split_non_posix(line);
    assert_eq!(tokens, vec!["cl.exe", "\"/I C:/path with space/include\""]);
}

#[test]
fn strip_arg_quotes_removes_one_matching_pair() {
    assert_eq!(strip_arg_quotes("\"/Fofoo.obj\""), "/Fofoo.obj");
    assert_eq!(strip_arg_quotes("/O2"), "/O2");
}

#[test]
fn extracts_msvc_fo_output_path() {
    let parts: Vec<String> = ["cl.exe", "/c", "src/x.cpp", "/Fobuild/052103/obj/x.dll/src/x.dll.obj"]
        .iter()
        .map(|s| s.to_string())
        .collect();
    assert_eq!(
        compile_output_path(&parts),
        Some("build/052103/obj/x.dll/src/x.dll.obj".to_string())
    );
}

#[test]
fn extracts_portable_dash_o_output_path() {
    let parts: Vec<String> = ["gcc", "-c", "x.c", "-o", "build/obj/x.o"]
        .iter()
        .map(|s| s.to_string())
        .collect();
    assert_eq!(compile_output_path(&parts), Some("build/obj/x.o".to_string()));
}

#[test]
fn returns_none_when_no_output_flag() {
    let parts: Vec<String> = ["cl.exe", "src/x.cpp"].iter().map(|s| s.to_string()).collect();
    assert_eq!(compile_output_path(&parts), None);
}

#[test]
fn symbol_key_strips_stdcall_decoration() {
    assert_eq!(symbol_key("_DllMain@12"), "DllMain");
}

#[test]
fn symbol_key_strips_fastcall_decoration() {
    assert_eq!(symbol_key("@x86MathEngine_QueryInterface@12"), "x86MathEngine_QueryInterface");
}

#[test]
fn symbol_key_leaves_undecorated_names_alone() {
    assert_eq!(symbol_key("sub_6F71DE0"), "sub_6F71DE0");
}

#[test]
fn symbol_key_keeps_cpp_mangled_name_whole() {
    assert_eq!(
        symbol_key("?get_base@IObjInspectImpl@@UBEHAAI@Z"),
        "?get_base@IObjInspectImpl@@UBEHAAI@Z"
    );
}

#[test]
fn symbol_key_distinguishes_same_method_on_different_classes() {
    // The bug this guards against: both would collapse to "?get_base".
    assert_ne!(
        symbol_key("?get_base@IObjInspectImpl@@UBEHAAI@Z"),
        symbol_key("?get_base@CEqObj@@QBEIXZ")
    );
}

#[test]
fn resolves_object_file_name() {
    let objects = fixture_objects();
    assert_eq!(norm_unit(&objects, "x86math.dll.obj").unwrap(), "x86math.dll");
    assert_eq!(norm_unit(&objects, "src/x86math.dll.obj").unwrap(), "x86math.dll");
}

#[test]
fn an_exact_name_wins_over_an_earlier_library_that_goes_by_it() {
    let mut objects = Objects::new();
    objects.insert("a.dll".to_string(), lib("a.dll", &[]));
    objects.insert("a".to_string(), lib("a", &[]));
    assert_eq!(norm_unit(&objects, "a").unwrap(), "a");
    assert_eq!(norm_unit(&objects, "src/a.dll.cpp").unwrap(), "a.dll");
}

#[test]
fn the_first_library_that_goes_by_a_name_is_meant() {
    let mut objects = Objects::new();
    objects.insert("b.exe".to_string(), lib("b.exe", &[]));
    objects.insert("b.dll".to_string(), lib("b.dll", &[]));
    assert_eq!(norm_unit(&objects, "b").unwrap(), "b.exe");
}

#[test]
fn only_one_file_suffix_is_taken_off() {
    let mut objects = Objects::new();
    objects.insert("x.obj".to_string(), lib("x.obj", &[]));
    assert_eq!(norm_unit(&objects, "x.obj.cpp").unwrap(), "x.obj");
}

#[test]
fn an_unknown_unit_is_named_as_it_was_given() {
    let e = norm_unit(&fixture_objects(), "src/nope.cpp").unwrap_err();
    assert_eq!(e.message(), "unknown unit: src/nope.cpp");
}

#[test]
fn the_first_unknown_unit_of_several_is_reported() {
    let objects = fixture_objects();
    let names = strings(&["x86math", "first", "second"]);
    assert_eq!(norm_units(&objects, &names).unwrap_err().message(), "unknown unit: first");
    let units = norm_units(&objects, &strings(&["x86math", "x86math.dll.obj"])).unwrap();
    assert_eq!(units, vec!["x86math.dll", "x86math.dll"]);
    assert_eq!(
        build_targets("id", &units),
        vec!["build/id/obj/x86math.dll/src/x86math.dll.obj", "build/id/obj/x86math.dll/src/x86math.dll.obj"]
    );
}

#[test]
fn a_symbol_key_is_its_own_key() {
    for name in ["_DllMain@12", "@f@4", "__x", "__x@4", "?m@C@@Z", "_?odd@8", "", "@@", "_a@b@8"] {
        let key = symbol_key(name);
        assert_eq!(symbol_key(&key), key);
    }
}

#[test]
fn only_c_decoration_is_stripped() {
    assert_eq!(symbol_key("_inv_sqrt_dynamic_init"), "_inv_sqrt_dynamic_init");
    assert_eq!(symbol_key("__x@4"), "_x");
    assert_eq!(symbol_key("@_x@16"), "_x");
    for name in ["f@4", "_f@", "_f@x4", "_f@4x", "_@4", "@@4", "_a@b@8", "_f@@4", "@f", "_", "@"] {
        assert_eq!(symbol_key(name), name);
    }
}

#[test]
fn a_quoted_token_ends_at_its_closing_quote() {
    assert_eq!(shlex_split_non_posix("'a b'"), vec!["'a b'"]);
    assert_eq!(shlex_split_non_posix("\"a b\"c"), vec!["\"a b\"", "c"]);
    assert_eq!(shlex_split_non_posix("\"it's\" 'say \"x y\"'"), vec!["\"it's\"", "'say \"x y\"'"]);
    assert_eq!(shlex_split_non_posix("\"\" ''"), vec!["\"\"", "''"]);
    assert_eq!(shlex_split_non_posix("a \"open b"), vec!["a", "\"open b"]);
}

#[test]
fn a_quote_within_a_word_is_plain() {
    assert_eq!(shlex_split_non_posix("a\"b c\"d"), vec!["a\"b", "c\"d"]);
    assert_eq!(shlex_split_non_posix("/D\"X Y\" it's"), vec!["/D\"X", "Y\"", "it's"]);
}

#[test]
fn only_blanks_part_arguments() {
    assert_eq!(shlex_split_non_posix(" a\tb\r\nc\u{a0}d\u{b}e "), vec!["a", "b", "c\u{a0}d\u{b}e"]);
    assert!(shlex_split_non_posix(" \t ").is_empty());
}

#[test]
fn splitting_joined_arguments_gives_them_back() {
    for line in ["  a  \"b c\"d\te 'f  g' \" h", "\"a\"\"b\"", "x", "", "'", "a'b \"c' d\""] {
        let args = shlex_split_non_posix(line);
        assert!(args.iter().all(|a| !a.is_empty()));
        assert_eq!(shlex_split_non_posix(&args.join(" ")), args, "{line:?}");
    }
}

#[test]
fn a_lone_quote_is_no_pair() {
    assert_eq!(strip_arg_quotes("\""), "\"");
    assert_eq!(strip_arg_quotes("\"\""), "");
    assert_eq!(strip_arg_quotes("\"a"), "\"a");
}

#[test]
fn an_empty_output_flag_is_passed_over() {
    assert_eq!(compile_output_path(&strings(&["/Fo", "-o"])), None);
    assert_eq!(compile_output_path(&strings(&["/Fo", "-o", "x", "/Foy"])), Some("x".to_string()));
}

#[test]
fn compile_steps_are_read_from_the_list() {
    let listing = "\n  build/BIN/CL.EXE /O2 \"/Foout/a.obj\" ./a.cpp  \r\n\ngcc -c x.c -o x.o\n";
    let steps = compile_steps(listing);
    assert_eq!(steps.len(), 2);
    assert_eq!(steps[0].line, "build/BIN/CL.EXE /O2 \"/Foout/a.obj\" ./a.cpp");
    assert_eq!(steps[0].parts, vec!["build/BIN/CL.EXE", "/O2", "/Foout/a.obj", "./a.cpp"]);
    assert_eq!(steps[0].output.as_deref(), Some("out/a.obj"));
    assert!(steps[0].is_compiler);
    assert!(!steps[1].is_compiler);
    assert_eq!(steps[1].output.as_deref(), Some("x.o"));
    assert!(compile_step("   ").is_none());
}

#[test]
fn the_compiler_runs_under_wine_but_on_windows() {
    let step = compile_step("BIN/cl.exe /c a.cpp").unwrap();
    assert_eq!(compile_argv(&step, Platform::Windows, "R/BIN/cl.exe"), vec!["R/BIN/cl.exe", "/c", "a.cpp"]);
    assert_eq!(compile_argv(&step, Platform::Linux, "/r/BIN/cl.exe"), vec!["wine", "/r/BIN/cl.exe", "/c", "a.cpp"]);
    assert_eq!(
        compile_command(&step, Platform::Linux, "/r/BIN/cl.exe", true).unwrap(),
        vec!["wine", "/r/BIN/cl.exe", "/c", "a.cpp"]
    );
    assert_eq!(
        compile_command(&step, Platform::Linux, "/r/BIN/cl.exe", false).unwrap_err(),
        "MSVC6 compilation requires Wine on non-Windows platforms; install it (e.g. `apt install wine`) and ensure \
         `wine` is on PATH"
    );
    assert!(needs_wine(&step, Platform::Linux) && !needs_wine(&step, Platform::Windows));
    assert!(compile_command(&step, Platform::Windows, "cl.exe", false).is_ok());
    let other = compile_step("gcc -c x.c").unwrap();
    assert!(compile_command(&other, Platform::Linux, "unused", false).is_ok());
    assert_eq!(compile_argv(&other, Platform::Linux, "unused"), vec!["gcc", "-c", "x.c"]);
}
