use fastfmt::compact;
use fastfmt::config::guarded_config;

#[test]
fn guards_rustfmt_config() {
    assert_eq!(guarded_config(""), "disable_all_formatting = true\n");
    assert_eq!(guarded_config("max_width = 120\n"), "max_width = 120\ndisable_all_formatting = true\n");
    assert_eq!(guarded_config("disable_all_formatting = false # no\n"), "disable_all_formatting = true # no\n");
    assert_eq!(guarded_config("disable_all_formatting = true\n"), "disable_all_formatting = true\n");
}

#[test]
fn joins_house_shapes() {
    let cases = [
        ("fn f(x: u8) -> u8 {\n    if x > 1 {\n        return 1;\n    }\n    0\n}\n", "fn f(x: u8) -> u8 {\n    if x > 1 { return 1; }\n    0\n}\n"),
        ("fn f(ready: bool) {\n    if ready {\n        notify();\n    }\n}\n", "fn f(ready: bool) { if ready { notify(); } }\n"),
        (
            "fn f(fds: Fds) {\n    for fd in fds {\n        let _ = self.poller.delete(borrowed(fd));\n    }\n}\n",
            "fn f(fds: Fds) { for fd in fds { let _ = self.poller.delete(borrowed(fd)); } }\n",
        ),
        ("fn time(&self) -> f64 {\n    self.core.time()\n}\n", "fn time(&self) -> f64 { self.core.time() }\n"),
        (
            "fn f(c: bool, e: &mut E, h: H) {\n    if c {\n        e.writer = Some(h)\n    } else {\n        e.reader = Some(h)\n    }\n}\n",
            "fn f(c: bool, e: &mut E, h: H) { if c { e.writer = Some(h) } else { e.reader = Some(h) } }\n",
        ),
        (
            "fn f(c: bool) {\n    if c {\n        a()\n    } else {\n        b()\n    }\n    done()\n}\n",
            "fn f(c: bool) {\n    if c { a() }\n    else { b() }\n    done()\n}\n",
        ),
        ("struct FdEntry<H> {\n    reader: Option<H>,\n    writer: Option<H>,\n}\n", "struct FdEntry<H> { reader: Option<H>, writer: Option<H> }\n"),
        ("enum Rt {\n    Owned(Runtime),\n    Borrowed(Handle),\n}\n", "enum Rt { Owned(Runtime), Borrowed(Handle) }\n"),
        (
            "fn drain(&self, q: &mut Q) {\n    while let Some(h) = q.pop_front() {\n        ready.push_back(h)\n    }\n}\n",
            "fn drain(&self, q: &mut Q) { while let Some(h) = q.pop_front() { ready.push_back(h) } }\n",
        ),
        (
            "impl<H> Default for FdEntry<H> {\n    fn default() -> Self {\n        Self { reader: None, writer: None }\n    }\n}\n",
            "impl<H> Default for FdEntry<H> { fn default() -> Self { Self { reader: None, writer: None } } }\n",
        ),
        (
            "fn h(&self) -> Handle {\n    match self {\n        Rt::Owned(r) => r.handle().clone(),\n        Rt::Borrowed(h) => h.clone(),\n    }\n}\n",
            "fn h(&self) -> Handle { match self { Rt::Owned(r) => r.handle().clone(), Rt::Borrowed(h) => h.clone() } }\n",
        ),
    ];
    for (src, want) in cases {
        assert_eq!(compact(src, 150), want, "src: {src}")
    }
}

#[test]
fn keeps_what_must_stay() {
    for src in [
        "fn f() {\n    a();\n    b();\n}\n",
        "fn f(ready: bool) {\n    if ready {\n        notify();\n        return;\n    }\n}\n",
        "fn f(r: R) -> u8 {\n    match r {\n        Err(e) => {\n            log(e);\n            return 1;\n        }\n        Ok(v) => v,\n    }\n}\n",
        "fn f() {\n    // why\n    a()\n}\n",
        "fn f() {\n    let s = \"a\nb\";\n}\n",
    ] {
        assert_eq!(compact(src, 150), src)
    }
    let long = format!("fn f() {{\n    {}()\n}}\n", "x".repeat(160));
    assert_eq!(compact(&long, 150), long);
}
