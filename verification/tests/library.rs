use fastfmt::cli::parse_args;
use fastfmt::config::{config_path, edition_for, guarded_config, is_rust_file, skip_dir, toml_lookup, width_for};
use fastfmt::elses::split_statement_elses;
use fastfmt::join::compact_round;
use fastfmt::compact;

fn code(s: &str) -> String {
    s.chars().filter(|c| !c.is_whitespace() && *c != ',').collect()
}

fn strings(v: &[&str]) -> Vec<String> {
    v.iter().map(|s| s.to_string()).collect()
}

#[test]
fn compact_keeps_code_of_every_shape() {
    for src in [
        "fn f(x: u8) -> u8 {\n    if x > 1 {\n        return 1;\n    }\n    0\n}\n",
        "struct FdEntry<H> {\n    reader: Option<H>,\n    writer: Option<H>,\n}\n",
        "fn f(c: bool) {\n    if c {\n        a()\n    } else {\n        b()\n    }\n    done()\n}\n",
        "fn f() {\n    // why\n    a()\n}\n",
        "impl<H> Default for FdEntry<H> {\n    fn default() -> Self {\n        Self { reader: None, writer: None }\n    }\n}\n",
    ] {
        let out = compact(src, 150);
        assert_eq!(code(&out), code(src), "src: {src}");
    }
}

#[test]
fn joined_line_stops_at_105_columns() {
    let fits = format!("use a;\nfn f() {{\n    {}()\n}}\n", "x".repeat(92));
    let want = format!("use a;\nfn f() {{ {}() }}\n", "x".repeat(92));
    assert_eq!(compact(&fits, 150), want);
    assert_eq!(want.len(), 7 + 105 + 1);
    let over = format!("use a;\nfn f() {{\n    {}()\n}}\n", "x".repeat(93));
    assert_eq!(compact(&over, 150), over);
    // On the first line the text before the block counts too.
    let first = format!("fn f() {{\n    {}()\n}}\n", "x".repeat(92));
    assert_eq!(compact(&first, 150), format!("fn f() {{ {}() }}\n", "x".repeat(92)));
    let first = format!("fn f() {{\n    {}()\n}}\n", "x".repeat(93));
    assert_eq!(compact(&first, 150), first);
    // So does the text after it on the last line.
    let last = format!("fn f() {{\n    {}()\n}} // end", "x".repeat(86));
    assert_eq!(compact(&last, 150), last);
}

#[test]
fn narrow_width_keeps_block() {
    let src = "use a;\nfn time(&self) -> f64 {\n    self.core.time()\n}\n";
    assert_eq!(compact(src, 20), src);
    assert_eq!(compact(src, 42), "use a;\nfn time(&self) -> f64 { self.core.time() }\n");
    assert_eq!(compact(src, 41), src);
}

#[test]
fn value_if_else_stays_on_one_line() {
    let src = "fn f(c: bool) -> u8 {\n    let x = if c {\n        1\n    } else {\n        2\n    };\n    x\n}\n";
    assert_eq!(compact(src, 150), "fn f(c: bool) -> u8 {\n    let x = if c { 1 } else { 2 };\n    x\n}\n");
}

#[test]
fn one_round_and_else_split() {
    assert_eq!(compact_round("fn f() {\n    a()\n}\n", 150), "fn f() { a() }\n");
    assert_eq!(compact_round("fn f() {\n    a();\n    b();\n}\n", 150), "fn f() {\n    a();\n    b();\n}\n");
    assert_eq!(
        split_statement_elses("fn f(c: bool) {\n    if c { a() } else { b() }\n    done()\n}\n"),
        "fn f(c: bool) {\n    if c { a() }\n    else { b() }\n    done()\n}\n"
    );
    assert_eq!(split_statement_elses("fn f() {}\n"), "fn f() {}\n");
}

#[test]
fn guard_edits_or_appends() {
    assert_eq!(guarded_config("max_width = 100"), "max_width = 100\ndisable_all_formatting = true\n");
    assert_eq!(guarded_config("  disable_all_formatting=false\n"), "  disable_all_formatting= true\n");
    assert_eq!(guarded_config("disable_all_formatting = false\r\n"), "disable_all_formatting = true\r\n");
    assert_eq!(
        guarded_config("a = 1 # disable_all_formatting = false\n"),
        "a = 1 # disable_all_formatting = false\ndisable_all_formatting = true\n"
    );
}

#[test]
fn guard_twice_is_guard_once() {
    for src in ["", "max_width = 100", "disable_all_formatting = false # no\n", "x = 1\r\ndisable_all_formatting = 0\r\n"] {
        let once = guarded_config(src);
        assert_eq!(guarded_config(&once), once);
    }
}

#[test]
fn toml_values() {
    assert_eq!(toml_lookup("[package]\nname = \"x\"\nedition = \"2018\"\n", "edition"), Some("2018".to_string()));
    assert_eq!(toml_lookup("editions = 5\nedition = 2021\n", "edition"), Some("5".to_string()));
    assert_eq!(toml_lookup("edition\nedition = 2\n", "edition"), None);
    assert_eq!(toml_lookup("max_width = 100 = 3\n", "max_width"), Some("100".to_string()));
    assert_eq!(toml_lookup("k = \"\"\"\n", "k"), Some(String::new()));
    assert_eq!(toml_lookup("other = 1\n", "k"), None);
}

#[test]
fn edition_and_width() {
    assert_eq!(edition_for(None), "2021");
    assert_eq!(edition_for(Some("[package]\n")), "2021");
    assert_eq!(edition_for(Some("edition = \"2018\"\n")), "2018");
    assert_eq!(width_for(Some(80), Some("max_width = 100\n")), 80);
    assert_eq!(width_for(None, Some("max_width = 100\n")), 100);
    assert_eq!(width_for(None, Some("max_width = +7\n")), 7);
    assert_eq!(width_for(None, Some("max_width = -7\n")), 130);
    assert_eq!(width_for(None, Some("max_width = abc\n")), 130);
    assert_eq!(width_for(None, Some("max_width = 999999999999999999999999\n")), 130);
    assert_eq!(width_for(None, None), 130);
}

#[test]
fn command_line() {
    let o = parse_args(&strings(&["fastfmt", "--check", "src"]));
    assert!(o.check);
    assert_eq!(o.width, None);
    assert_eq!(o.paths, strings(&["src"]));
    let o = parse_args(&strings(&["--width", "90", "a.rs"]));
    assert!(!o.check);
    assert_eq!(o.width, Some(90));
    assert_eq!(o.paths, strings(&["a.rs"]));
    let o = parse_args(&strings(&[]));
    assert_eq!(o.paths, strings(&["."]));
    let o = parse_args(&strings(&["--width", "--width", "x"]));
    assert_eq!(o.width, None);
    assert_eq!(o.paths, strings(&["."]));
}

#[test]
fn guard_file_location() {
    assert_eq!(config_path(&strings(&["/a/b", "/a", "/"]), &vec![false, true, true]), "/a/rustfmt.toml");
    assert_eq!(config_path(&strings(&["/a/b", "/a", "/"]), &vec![false, false, false]), "/a/b/rustfmt.toml");
    assert_eq!(config_path(&strings(&["/"]), &vec![true]), "/rustfmt.toml");
}

#[test]
fn which_files_and_dirs() {
    assert!(skip_dir("target"));
    assert!(skip_dir(".git"));
    assert!(!skip_dir("."));
    assert!(!skip_dir("src"));
    assert!(is_rust_file(Some("rs")));
    assert!(!is_rust_file(Some("txt")));
    assert!(!is_rust_file(None));
}

#[test]
fn rounds_run_to_fixpoint() {
    let src = "impl A {\n    fn f(&self) -> u8 {\n        1\n    }\n}\n";
    let out = compact(src, 150);
    assert_eq!(out, "impl A { fn f(&self) -> u8 { 1 } }\n");
    assert_eq!(compact_round(&out, 150), out);
}

#[test]
fn inner_block_joins_first() {
    let src = "fn f(ready: bool) {\n    if ready {\n        notify();\n    }\n}\n";
    let once = compact_round(src, 150);
    assert_eq!(once, "fn f(ready: bool) {\n    if ready { notify(); }\n}\n");
    assert_eq!(compact_round(&once, 150), "fn f(ready: bool) { if ready { notify(); } }\n");
}

#[test]
fn whole_line_is_measured() {
    let src = "fn f() {\n    abcdefghij()\n}\n";
    assert_eq!(compact_round(src, 20), src);
    assert_eq!(compact_round(src, 23), "fn f() { abcdefghij() }\n");
    assert_eq!(compact_round(src, 22), src);
}

#[test]
fn only_trailing_commas_go() {
    let src = "fn f() {\n    g(\", }\")\n}\n";
    assert_eq!(compact_round(src, 150), "fn f() { g(\", }\") }\n");
    let src = "fn f() -> S {\n    S {\n        a: 1,\n    }\n}\n";
    assert_eq!(compact(src, 150), "fn f() -> S { S { a: 1 } }\n");
}

#[test]
fn nested_blocks_collapse_fully() {
    let src = "fn f() {\n    if a {\n        if b {\n            if c {\n                if d {\n                    if e {\n                        x()\n                    }\n                }\n            }\n        }\n    }\n}\n";
    let out = compact(src, 150);
    assert_eq!(out, "fn f() { if a { if b { if c { if d { if e { x() } } } } } }\n");
    assert_eq!(compact_round(&out, 150), out);
}

#[test]
fn enabled_guard_is_left_alone() {
    for src in [
        "disable_all_formatting=true\n",
        "disable_all_formatting =  true  # on\n",
        "max_width = 100\ndisable_all_formatting = true",
    ] {
        assert_eq!(guarded_config(src), src);
    }
    assert_eq!(guarded_config("disable_all_formatting=false\n"), "disable_all_formatting= true\n");
}

#[test]
fn comma_before_brace_on_a_line_goes() {
    assert_eq!(compact_round("fn f() {\n    S { a, }\n}\n", 150), "fn f() { S { a } }\n");
    assert_eq!(compact_round("fn f() {\n    g(', ', \", }\", r\", }\")\n}\n", 150), "fn f() { g(', ', \", }\", r\", }\") }\n");
}
