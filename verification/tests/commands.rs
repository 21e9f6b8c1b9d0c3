use mdp::commands::book::{
    diagrams_of, read_input, read_invocation, transform_book, write_output, InputError,
};
use mdp::commands::drawing::{
    cache_file_name, cache_name, compose_plantuml, failure_of, mmdc_args, plantuml_args,
    plantuml_source, tool_failure, tool_timeout,
};
use mdp::commands::dump;
use mdp::commands::install::{crates, install_step, missing_hints, system_bins};
use mdp::commands::pdf::{
    check_format, ensure_deps, ensure_latex_engine, pdf_book_toml, produced, profile_block,
};
use mdp::commands::preprocess::{
    call_of, diagram_requests, fence_kind, mime_of, transform_markdown, Call, DiagramKind, Rendered,
    TransformPolicy,
};
use mdp::commands::serve::{
    bind_refusal, browser_url, is_md_file, may_bind, needs_resync, pick_free_port, resync_due,
    serving_line, PORT_FALLBACK_RANGE,
};
use mdp::commands::{
    ensure_tools, register_mdp_preprocess, run_outcome, Tail, Verdict, Watchdog, TAIL_LINES,
};
use mdp::config::BookConfig;
use mdp::json::{Json, Member};
use mdp::theme::{fill_template, install_theme, write_book_toml, Asset, AssetError, Assets};

const ALL: TransformPolicy = TransformPolicy { plantuml: true, mermaid: true };

// ---------------------------------------------------------------------------
// Fences
// ---------------------------------------------------------------------------

#[test]
fn recognizes_basic_plantuml() {
    assert_eq!(fence_kind("```plantuml"), Some(DiagramKind::PlantUml));
    assert_eq!(fence_kind("```puml"), Some(DiagramKind::PlantUml));
}

#[test]
fn recognizes_basic_mermaid() {
    assert_eq!(fence_kind("```mermaid"), Some(DiagramKind::Mermaid));
}

#[test]
fn ignores_other_languages() {
    assert_eq!(fence_kind("```rust"), None);
    assert_eq!(fence_kind("```ts"), None);
    assert_eq!(fence_kind("```"), None);
    assert_eq!(fence_kind("```sh"), None);
}

#[test]
fn accepts_attributes_after_language() {
    assert_eq!(fence_kind("```mermaid {theme=dark}"), Some(DiagramKind::Mermaid));
    assert_eq!(fence_kind("```mermaid:line-numbers"), Some(DiagramKind::Mermaid));
    assert_eq!(fence_kind("```plantuml , tag=foo"), Some(DiagramKind::PlantUml));
    assert_eq!(fence_kind("```mermaid [title=foo]"), Some(DiagramKind::Mermaid));
}

#[test]
fn case_sensitive() {
    assert_eq!(fence_kind("```Mermaid"), None);
    assert_eq!(fence_kind("```PlantUML"), None);
}

#[test]
fn rejects_non_fence_prefixes() {
    assert_eq!(fence_kind("``plantuml"), None);
    assert_eq!(fence_kind("````plantuml"), None);
    assert_eq!(fence_kind("plantuml"), None);
    assert_eq!(fence_kind(""), None);
}

#[test]
fn fence_match_with_leading_indent_in_list() {
    assert_eq!(fence_kind("    ```mermaid".trim_start()), Some(DiagramKind::Mermaid));
    assert_eq!(fence_kind("  ```plantuml".trim_start()), Some(DiagramKind::PlantUml));
}

#[test]
fn attributes_may_follow_the_language_at_once() {
    assert_eq!(fence_kind("```mermaid{x}"), Some(DiagramKind::Mermaid));
    assert_eq!(fence_kind("```puml,x"), Some(DiagramKind::PlantUml));
    assert_eq!(fence_kind("```mermaid\u{3000}x"), Some(DiagramKind::Mermaid));
    assert_eq!(fence_kind("```mermaid;x"), None);
    assert_eq!(fence_kind("``` mermaid"), None);
}

// ---------------------------------------------------------------------------
// Markdown
// ---------------------------------------------------------------------------

#[test]
fn transform_leaves_non_diagram_code_alone() {
    let src = "# Hi\n\n```rust\nfn main() {}\n```\n\nBye\n";
    let out = transform_markdown(src, ALL, &[]);
    assert!(out.contains("```rust"));
    assert!(out.contains("fn main()"));
    assert!(out.contains("Bye"));
    assert_eq!(out, src);
}

#[test]
fn transform_unterminated_fence_passes_through() {
    let src = "# Title\n\n```mermaid\ngraph TD\nA-->B\n\nno close here\n";
    assert!(diagram_requests(src, ALL).is_empty());
    let out = transform_markdown(src, ALL, &[]);
    assert!(out.contains("```mermaid"), "fence should be preserved on unterminated");
    assert!(out.contains("graph TD"));
    assert_eq!(out, format!("{src}```\n"));
}

#[test]
fn transform_handles_crlf_line_endings() {
    let src = "# Title\r\n\r\n```rust\r\nfn a() {}\r\n```\r\n\r\nEnd.\r\n";
    let out = transform_markdown(src, ALL, &[]);
    assert!(out.contains("fn a()"));
    assert!(out.contains("End."));
    assert_eq!(out, src.replace('\r', ""));
}

#[test]
fn transform_preserves_non_fence_content() {
    let src =
        "# Doc\n\nParagraph.\n\n```rust\nfn a() {}\n```\n\n| h | h |\n|---|---|\n| a | b |\n\n## Section\n\n- list\n";
    let out = transform_markdown(src, ALL, &[]);
    assert!(out.contains("Paragraph."));
    assert!(out.contains("```rust"));
    assert!(out.contains("| a | b |"));
    assert!(out.contains("## Section"));
}

#[test]
fn diagrams_become_images() {
    let src = "a\n  ```puml x\nA -> B\n\n  ```\nb\n```mermaid\ng\n```";
    let wanted = diagram_requests(src, ALL);
    assert_eq!(wanted.len(), 2);
    assert_eq!(wanted[0].kind, DiagramKind::PlantUml);
    assert_eq!(wanted[0].body, "A -> B\n\n");
    assert_eq!(wanted[1].kind, DiagramKind::Mermaid);
    assert_eq!(wanted[1].body, "g\n");
    let out = transform_markdown(
        src,
        ALL,
        &[Rendered::Image(b"<svg/>".to_vec()), Rendered::Image(vec![0x89, b'P', 0xff])],
    );
    assert_eq!(
        out,
        "a\n![plantuml diagram](data:image/svg+xml;base64,PHN2Zy8+)\nb\n![mermaid diagram](data:image/png;base64,iVD/)\n"
    );
}

#[test]
fn images_of_every_length_are_encoded() {
    for (bytes, text) in [
        (&b""[..], ""),
        (b"f", "Zg=="),
        (b"fo", "Zm8="),
        (b"foo", "Zm9v"),
        (b"foob", "Zm9vYg=="),
        (b"fooba", "Zm9vYmE="),
        (b"foobar", "Zm9vYmFy"),
    ] {
        let out = transform_markdown("```puml\n```", ALL, &[Rendered::Image(bytes.to_vec())]);
        assert_eq!(out, format!("![plantuml diagram](data:image/svg+xml;base64,{text})\n"));
    }
}

#[test]
fn a_diagram_that_cannot_be_drawn_stays_with_the_reason() {
    let out = transform_markdown(
        "```mermaid\nbad\n```\nend\n",
        ALL,
        &[Rendered::Failed("mmdc failed".to_string())],
    );
    assert_eq!(out, "```mermaid\nbad\n```\n\n> diagram render error: mmdc failed\nend\n");
}

#[test]
fn html_keeps_mermaid_and_draws_plantuml() {
    let html = TransformPolicy::for_renderer("html");
    assert!(html.plantuml && !html.mermaid);
    let pandoc = TransformPolicy::for_renderer("pandoc");
    assert!(pandoc.plantuml && pandoc.mermaid);
    let other = TransformPolicy::for_renderer("HTML");
    assert!(!other.plantuml && !other.mermaid);
    let src = "```mermaid\ng\n```\n```plantuml\np\n```\n";
    assert_eq!(diagram_requests(src, html).len(), 1);
    assert_eq!(
        transform_markdown(src, html, &[Rendered::Image(b"x".to_vec())]),
        "```mermaid\ng\n```\n![plantuml diagram](data:image/svg+xml;base64,eA==)\n"
    );
    assert_eq!(transform_markdown(src, other, &[]), src);
}

#[test]
fn calls_are_told_apart() {
    assert!(matches!(call_of(None, None), Call::Transform));
    assert!(matches!(call_of(Some("supports"), Some("html")), Call::Supports(true)));
    assert!(matches!(call_of(Some("supports"), Some("pandoc")), Call::Supports(true)));
    assert!(matches!(call_of(Some("supports"), Some("epub")), Call::Supports(false)));
    assert!(matches!(call_of(Some("supports"), None), Call::Supports(false)));
    assert!(matches!(call_of(Some("help"), None), Call::Unknown(a) if a == "help"));
}

// ---------------------------------------------------------------------------
// Books
// ---------------------------------------------------------------------------

fn text(s: &str) -> Json {
    Json::Text(s.to_string())
}

fn object(members: Vec<(&str, Json)>) -> Json {
    Json::Object(
        members
            .into_iter()
            .map(|(name, value)| Member { name: name.to_string(), value })
            .collect(),
    )
}

fn chapter(content: &str, sub_items: Vec<Json>) -> Json {
    object(vec![(
        "Chapter",
        object(vec![
            ("content", text(content)),
            ("name", text("```puml\n```")),
            ("sub_items", Json::Array(sub_items)),
        ]),
    )])
}

fn show(j: &Json) -> String {
    match j {
        Json::Null => "null".to_string(),
        Json::Bool(b) => b.to_string(),
        Json::Number(n) => n.to_string(),
        Json::Text(t) => format!("{t:?}"),
        Json::Array(v) => format!("[{}]", v.iter().map(show).collect::<Vec<_>>().join(",")),
        Json::Object(ms) => format!(
            "{{{}}}",
            ms.iter().map(|m| format!("{}:{}", m.name, show(&m.value))).collect::<Vec<_>>().join(",")
        ),
    }
}

#[test]
fn books_are_transformed_chapter_by_chapter() {
    let book = object(vec![
        ("__non_exhaustive", Json::Null),
        (
            "items",
            Json::Array(vec![
                text("Separator"),
                chapter("```puml\n1\n```", vec![chapter("```puml\n2\n```", vec![])]),
                object(vec![("PartTitle", text("```puml\n```"))]),
                chapter("```puml\n3\n```", vec![]),
                object(vec![("Chapter", Json::Number(serde_json::Number::from(7)))]),
            ]),
        ),
    ]);
    let wanted: Vec<String> = diagrams_of(&book, ALL).into_iter().map(|r| r.body).collect();
    assert_eq!(wanted, ["1\n", "2\n", "3\n"]);
    let drawn: Vec<Rendered> =
        ["a", "b", "c"].iter().map(|s| Rendered::Image(s.as_bytes().to_vec())).collect();
    let out = transform_book(book, ALL, &drawn);
    let img = |b: &str| format!("\"![plantuml diagram](data:image/svg+xml;base64,{b})\\n\"");
    let name = "\"```puml\\n```\"";
    let chap = |c: String, sub: String| format!("{{Chapter:{{content:{c},name:{name},sub_items:[{sub}]}}}}");
    assert_eq!(
        show(&out),
        format!(
            "{{__non_exhaustive:null,items:[\"Separator\",{},{{PartTitle:{name}}},{},{{Chapter:7}}]}}",
            chap(img("YQ=="), chap(img("Yg=="), String::new())),
            chap(img("Yw=="), String::new())
        )
    );
}

#[test]
fn books_of_another_shape_stay_as_they_are() {
    for book in [
        Json::Null,
        Json::Array(vec![chapter("```puml\n```", vec![])]),
        object(vec![("items", text("x"))]),
        object(vec![("sections", Json::Array(vec![chapter("```puml\n```", vec![])]))]),
    ] {
        assert!(diagrams_of(&book, ALL).is_empty());
        let before = show(&book);
        assert_eq!(show(&transform_book(book, ALL, &[])), before);
    }
}

#[test]
fn invocations_need_the_directory_of_the_book() {
    let ctx = object(vec![("renderer", text("html")), ("root", text("/w"))]);
    let inv = read_invocation(Json::Array(vec![ctx, object(vec![("items", Json::Null)])])).unwrap();
    assert_eq!(inv.root, "/w");
    assert_eq!(inv.renderer, "html");
    assert_eq!(show(&inv.book), "{items:null}");

    let inv = read_invocation(Json::Array(vec![object(vec![("root", text("/w"))])])).unwrap();
    assert_eq!(inv.renderer, "");
    assert_eq!(show(&inv.book), "{}");

    assert!(read_invocation(Json::Null).is_none());
    assert!(read_invocation(Json::Array(vec![])).is_none());
    assert!(read_invocation(object(vec![("root", text("/w"))])).is_none());
    assert!(read_invocation(Json::Array(vec![object(vec![("root", Json::Null)])])).is_none());
}

#[test]
fn input_is_read_and_output_is_written_as_json() {
    let text = r#"[{"root":"/w","renderer":"html"},{"items":[{"Chapter":{"content":"```puml\n1\n```","number":[1,-2,0.1],"sub_items":[]}},"Separator"],"a":null,"b":true}]"#;
    let inv = read_input(text).ok().unwrap();
    assert_eq!(inv.root, "/w");
    assert_eq!(inv.renderer, "html");
    assert_eq!(diagrams_of(&inv.book, ALL)[0].body, "1\n");
    let out = write_output(inv.book, ALL, &[Rendered::Image(b"a".to_vec())]).unwrap();
    assert_eq!(
        out,
        r#"{"a":null,"b":true,"items":[{"Chapter":{"content":"![plantuml diagram](data:image/svg+xml;base64,YQ==)\n","number":[1,-2,0.1],"sub_items":[]}},"Separator"]}"#
    );
    assert!(matches!(read_input("[{}]"), Err(InputError::NoRoot)));
    assert!(matches!(read_input("7"), Err(InputError::NoRoot)));
    match read_input("[") {
        Err(InputError::Syntax(m)) => assert_eq!(m, "EOF while parsing a list at line 1 column 1"),
        _ => panic!("accepted"),
    }
}

// ---------------------------------------------------------------------------
// Drawing
// ---------------------------------------------------------------------------

#[test]
fn images_are_kept_under_the_hash_of_the_diagram() {
    // The BLAKE3 hash of nothing begins with af1349b9f5f9a1a6.
    assert_eq!(cache_name(DiagramKind::PlantUml, ""), "plantuml-af1349b9f5f9a1a6.svg");
    assert_eq!(cache_name(DiagramKind::Mermaid, ""), "mermaid-af1349b9f5f9a1a6.png");
    assert_ne!(cache_name(DiagramKind::Mermaid, "a"), cache_name(DiagramKind::Mermaid, "b"));
    assert_eq!(
        cache_file_name(DiagramKind::Mermaid, "0123456789abcdefXYZ"),
        "mermaid-0123456789abcdef.png"
    );
    assert_eq!(mime_of(DiagramKind::PlantUml), "image/svg+xml");
    assert_eq!(mime_of(DiagramKind::Mermaid), "image/png");
}

#[test]
fn plantuml_gets_the_header_inside_of_the_diagram() {
    assert_eq!(compose_plantuml("H", "A -> B\n"), "@startuml\nH\nA -> B\n\n@enduml\n");
    assert_eq!(
        compose_plantuml("H\n", "x\n @startuml t\nA\n@enduml\n@startuml\nB\n"),
        "x\n @startuml t\nH\nA\n@enduml\n@startuml\nB\n"
    );
    assert_eq!(compose_plantuml("H\n", "' @startuml\n"), "' @startuml\n");
}

#[test]
fn plantuml_header_comes_from_the_files_of_the_program() {
    let mut assets = Assets { files: Vec::new() };
    assert!(matches!(plantuml_source(&assets, "A"), Err(AssetError::Missing)));
    assets.files.push(Asset { path: "themes/plantuml-tokyonight.puml".to_string(), data: b"H".to_vec() });
    assert_eq!(plantuml_source(&assets, "A").unwrap(), "@startuml\nH\nA\n@enduml\n");
    assets.files[0].data = vec![0xff];
    assert!(matches!(plantuml_source(&assets, "A"), Err(AssetError::NotUtf8)));
}

#[test]
fn drawing_programs_are_called_and_reported() {
    assert_eq!(plantuml_args(), ["-pipe", "-tsvg", "-charset", "UTF-8"]);
    assert_eq!(
        mmdc_args("o.png", "c.json").join(" "),
        "--input - --output o.png --backgroundColor white --configFile c.json --theme default --scale 2 --quiet"
    );
    assert_eq!(failure_of("mmdc", "exit status: 1", "e"), "mmdc failed (exit status: 1): e");
    assert_eq!(tool_failure("plantuml", "1", b"a\xffb"), "plantuml failed (1): a\u{fffd}b");
    assert_eq!(tool_timeout("mmdc"), "mmdc: timed out after 30s");
}

// ---------------------------------------------------------------------------
// Ports and addresses
// ---------------------------------------------------------------------------

#[test]
fn pick_free_port_returns_requested_when_free() {
    let requested = 49_152;
    let chosen = pick_free_port(requested, |_| true).unwrap();
    assert!((requested..requested + PORT_FALLBACK_RANGE).contains(&chosen));
    assert_eq!(chosen, requested);
    assert_eq!(pick_free_port(65_535, |_| true).unwrap(), 65_535);
}

#[test]
fn pick_free_port_skips_busy_port() {
    let busy = 3456;
    let chosen = pick_free_port(busy, |p| p != busy).unwrap();
    assert_ne!(chosen, busy, "should have skipped the bound port");
    assert_eq!(chosen, 3457);
}

#[test]
fn pick_free_port_window_constants_are_sane() {
    assert!(PORT_FALLBACK_RANGE >= 4);
    assert_eq!(PORT_FALLBACK_RANGE, 16);
}

#[test]
fn pick_free_port_gives_up_at_the_end_of_the_window() {
    assert_eq!(pick_free_port(3456, |p| p >= 3471).unwrap(), 3471);
    assert_eq!(pick_free_port(3456, |p| p >= 3472).err().unwrap(), "no free port in [3456, 3472)");
    assert_eq!(pick_free_port(65_530, |p| p == 65_535).unwrap(), 65_535);
    assert_eq!(pick_free_port(65_530, |_| false).err().unwrap(), "no free port in [65530, 65536)");
}

#[test]
fn other_hosts_have_to_be_allowed() {
    assert!(may_bind(true, None));
    assert!(!may_bind(false, None));
    assert!(may_bind(false, Some("1")));
    assert!(!may_bind(false, Some("0")));
    assert_eq!(
        bind_refusal("0.0.0.0"),
        "refusing to bind non-loopback 0.0.0.0; set MDP_ALLOW_NON_LOOPBACK=1 to override"
    );
    assert_eq!(serving_line("127.0.0.1", 3456), "mdp: serving on http://127.0.0.1:3456/");
    assert_eq!(browser_url("127.0.0.1", false, 80), "http://127.0.0.1:80/");
    assert_eq!(browser_url("::1", true, 3456), "http://[::1]:3456/");
}

#[test]
fn changes_of_pages_are_told_from_other_changes() {
    let paths = |v: &[&str]| v.iter().map(|p| p.as_bytes().to_vec()).collect::<Vec<_>>();
    assert!(is_md_file(b"/s/a.md") && is_md_file(b"/s/a.MD") && is_md_file(b"b.mD"));
    assert!(!is_md_file(b"/s/a.txt") && !is_md_file(b"/s/.md") && !is_md_file(b"/s/md"));
    assert!(needs_resync(&paths(&["/s/x.png", "/s/a.md"]), b"/tmp/w/src"));
    assert!(!needs_resync(&paths(&["/s/x.png", "/tmp/w/src/a.md"]), b"/tmp/w/src"));
    assert!(!needs_resync(&paths(&[]), b"/tmp/w/src"));

    let events = paths(&["/s/a.md"]);
    let before = Some(paths(&["a.md"]));
    assert!(!resync_due(&events, b"/w", &before, &Some(paths(&["a.md"]))));
    assert!(resync_due(&events, b"/w", &before, &Some(paths(&["a.md", "b.md"]))));
    assert!(resync_due(&events, b"/w", &before, &Some(paths(&["b.md"]))));
    assert!(resync_due(&events, b"/w", &before, &None));
    assert!(!resync_due(&paths(&["/s/x.png"]), b"/w", &before, &None));
}

// ---------------------------------------------------------------------------
// The watchdog
// ---------------------------------------------------------------------------

const SECOND: u128 = 1_000_000_000;

#[test]
fn watchdog_passes_through_quick_command() {
    let wd = Watchdog { overall: 10, stall: 5 };
    assert!(matches!(wd.tick(false, SECOND / 2, 500, 0), Verdict::Wait));
    assert!(matches!(wd.tick(true, 100 * SECOND, 100_000, 0), Verdict::Done));
    let mut tail = Tail::new();
    tail.push("hello".to_string());
    assert!(run_outcome("echo-test", None, &tail, true, "exit status: 0").is_ok());
}

#[test]
fn watchdog_kills_on_stall() {
    let wd = Watchdog { overall: 60, stall: 1 };
    assert!(matches!(wd.tick(false, SECOND, 1000, 0), Verdict::Wait));
    match wd.tick(false, 2 * SECOND, 12_500, 11_000) {
        Verdict::Kill(reason) => {
            assert_eq!(reason, "no output for 1s (stall limit 1s) — likely lualatex hang")
        }
        _ => panic!("not killed"),
    }
    // A clock that went back is no silence.
    assert!(matches!(wd.tick(false, 2 * SECOND, 0, 11_000), Verdict::Wait));
}

#[test]
fn watchdog_kills_on_overall_timeout() {
    let wd = Watchdog { overall: 2, stall: 60 };
    assert!(matches!(wd.tick(false, 2 * SECOND, 100, 0), Verdict::Wait));
    match wd.tick(false, 2 * SECOND + 1, 100, 0) {
        Verdict::Kill(reason) => assert_eq!(reason, "exceeded overall timeout 2s"),
        _ => panic!("not killed"),
    }
}

#[test]
fn watchdog_zero_overall_disables_overall() {
    let wd = Watchdog { overall: 0, stall: 5 };
    assert!(matches!(wd.tick(false, u128::MAX, 5000, 0), Verdict::Wait));
    let none = Watchdog { overall: 0, stall: 0 };
    assert!(matches!(none.tick(false, u128::MAX, u64::MAX, 0), Verdict::Wait));
    let long = Watchdog { overall: u64::MAX, stall: u64::MAX };
    assert!(matches!(long.tick(false, SECOND, u64::MAX, 0), Verdict::Wait));
}

#[test]
fn watchdog_stays_with_its_decision() {
    let wd = Watchdog { overall: 2, stall: 1 };
    assert!(matches!(wd.tick(false, 2 * SECOND, 1000, 0), Verdict::Wait));
    assert!(matches!(wd.tick(false, SECOND, 1001, 0), Verdict::Kill(_)));
    assert!(matches!(wd.tick(false, 9 * SECOND, 9001, 0), Verdict::Kill(_)));
}

#[test]
fn watchdog_takes_its_limits_from_variables() {
    let wd = Watchdog::from_env(Some("0"), Some("+90"), 600, 60);
    assert_eq!((wd.overall, wd.stall), (0, 90));
    let wd = Watchdog::from_env(None, Some("1m"), 600, 60);
    assert_eq!((wd.overall, wd.stall), (600, 60));
    let wd = Watchdog::from_env(Some("18446744073709551616"), Some(""), 600, 60);
    assert_eq!((wd.overall, wd.stall), (600, 60));
    let wd = Watchdog::from_env(Some("18446744073709551615"), Some("-1"), 600, 60);
    assert_eq!((wd.overall, wd.stall), (u64::MAX, 60));
}

#[test]
fn reports_show_the_last_lines() {
    let mut tail = Tail::new();
    assert_eq!(
        run_outcome("b", Some("why"), &tail, false, "signal: 15").err().unwrap(),
        "b aborted by watchdog: why\n--- last 0 output lines ---\n(no output captured)\n--- end ---\ntune via MDP_PDF_TIMEOUT / MDP_PDF_STALL_TIMEOUT (seconds; 0 to disable)."
    );
    tail.push("one".to_string());
    tail.push("two".to_string());
    assert!(run_outcome("b", Some("why"), &tail, true, "")
        .err()
        .unwrap()
        .contains("\n--- last 2 output lines ---\none\ntwo\n--- end ---\n"));
    assert_eq!(run_outcome("b", None, &tail, false, "exit status: 2").err().unwrap(), "b exited with exit status: 2");
    for i in 0..100 {
        tail.push(i.to_string());
    }
    let lines = tail.lines();
    assert_eq!(lines.len(), TAIL_LINES);
    assert_eq!(lines[0], "36");
    assert_eq!(lines[63], "99");
}

// ---------------------------------------------------------------------------
// Tools
// ---------------------------------------------------------------------------

#[test]
fn missing_tools_are_named() {
    assert!(ensure_tools(&["a", "b"], &[true, true]).is_ok());
    assert!(ensure_tools(&[], &[]).is_ok());
    assert_eq!(
        ensure_tools(&["a", "b", "c"], &[false, true, false]).err().unwrap(),
        "missing required tools: a, c. run `mdp install-deps`"
    );
    assert!(ensure_deps(&[true, true, true]).is_ok());
    assert_eq!(
        ensure_deps(&[true, false, false]).err().unwrap(),
        "missing tools: mdbook-pandoc, pandoc. install with: cargo install mdbook-pandoc (+ system pandoc)"
    );
    assert!(ensure_latex_engine("html", false).is_ok());
    assert!(ensure_latex_engine("latex", true).is_ok());
    assert!(ensure_latex_engine("latex", false).err().unwrap().starts_with("missing lualatex "));
}

#[test]
fn crates_are_installed_unless_they_are_there() {
    let all = crates();
    assert_eq!(all.len(), 6);
    assert_eq!(all[1], ("mdbook-katex", "=0.10.0-alpha"));
    assert!(install_step("mdbook", "~0.5.2", false, true).is_none());
    assert_eq!(
        install_step("mdbook", "~0.5.2", false, false).unwrap().join(" "),
        "install mdbook --version ~0.5.2 --locked"
    );
    assert_eq!(
        install_step("mdbook", "~0.5.2", true, true).unwrap().join(" "),
        "install mdbook --version ~0.5.2 --locked --force"
    );
    assert_eq!(
        missing_hints(&system_bins(), &[true, false, true, true]),
        ["  mmdc: npm i -g @mermaid-js/mermaid-cli"]
    );
}

// ---------------------------------------------------------------------------
// book.toml
// ---------------------------------------------------------------------------

#[test]
fn registration_replaces_plantuml_and_reads_back() {
    let toml = "[book]\ntitle = \"t\"\n[preprocessor.plantuml]\nx = 1\n[preprocessor.katex]\n";
    let out = register_mdp_preprocess(toml, b"/opt/my \"mdp\"\\bin");
    assert_eq!(
        out,
        "[book]\ntitle = \"t\"\n[preprocessor.katex]\n\n[preprocessor.mdp-diagrams]\ncommand = \"/opt/my \\\"mdp\\\"\\\\bin preprocess\"\n"
    );
    let parsed: toml::Value = toml::from_str(&out).unwrap();
    assert_eq!(
        parsed["preprocessor"]["mdp-diagrams"]["command"].as_str().unwrap(),
        "/opt/my \"mdp\"\\bin preprocess"
    );
}

#[test]
fn undecodable_programs_are_registered_as_they_are_shown() {
    assert!(register_mdp_preprocess("", b"/a\xffb").contains("\"/a\u{fffd}b preprocess\""));
}

#[test]
fn pdf_books_have_their_own_book_toml() {
    let toml = "[book]\ntitle = \"t\"\n[output.html]\nx = 1\n[output.html.search]\n[preprocessor.mermaid]\n[preprocessor.plantuml]\n[preprocessor.katex]\n";
    let out = pdf_book_toml(toml, "html5", b"/bin/mdp");
    assert_eq!(
        out,
        "[book]\ntitle = \"t\"\n[preprocessor.katex]\n\n[output.pandoc]\nhosted-html = \"\"\n\n[output.pandoc.profile.pdf]\noutput-file = \"book.pdf\"\nto = \"html5\"\n\n\n[preprocessor.mdp-diagrams]\ncommand = \"/bin/mdp preprocess\"\n"
    );
    let latex = pdf_book_toml(toml, "latex", b"/bin/mdp");
    let parsed: toml::Value = toml::from_str(&latex).unwrap();
    let profile = &parsed["output"]["pandoc"]["profile"]["pdf"];
    assert_eq!(profile["to"].as_str().unwrap(), "latex");
    assert_eq!(profile["pdf-engine"].as_str().unwrap(), "lualatex");
    assert_eq!(profile["variables"]["CJKmainfont"].as_str().unwrap(), "Noto Sans CJK KR");
    assert!(profile["variables"]["header-includes"][0].as_str().unwrap().contains("\\AtEndPreamble{\n\\setmainfont{Noto Sans CJK KR}"));
    assert!(parsed["output"].get("html").is_none());
    assert!(profile_block("latex").starts_with("\n[output.pandoc]\n"));
}

#[test]
fn formats_are_allowed_by_name() {
    for to in ["latex", "html", "html5", "pdf", "docx", "epub", "epub3", "gfm", "rst", "commonmark_x"] {
        assert!(check_format(to).is_ok(), "{to}");
    }
    for to in ["", "LaTeX", "latex\"\n[output.evil]", "beamer"] {
        assert_eq!(
            check_format(to).err().unwrap(),
            "latex, html, html5, pdf, docx, epub, epub3, markdown, markdown_strict, markdown_github, gfm, plain, rst, commonmark, commonmark_x"
        );
    }
}

#[test]
fn the_pdf_is_looked_for_in_two_places() {
    assert_eq!(produced(true, true), Some("book/pdf/book.pdf"));
    assert_eq!(produced(false, true), Some("book/pandoc/pdf/book.pdf"));
    assert_eq!(produced(false, false), None);
}

fn book_config() -> BookConfig {
    BookConfig {
        title: "A \"B\"".to_string(),
        author: "me".to_string(),
        plantuml_server: "http://p".to_string(),
        src_dir_display: "/s\nrc".to_string(),
        language: "en".to_string(),
    }
}

#[test]
fn templates_are_filled() {
    let tmpl = "# {{SRC_DIR}}\n[book]\ntitle = \"{{TITLE}}\"\nauthors = [\"{{AUTHOR}}\"]\nlanguage = \"{{LANGUAGE}}\"\nserver = \"{{PLANTUML_SERVER}}\"\nagain = \"{{TITLE}}{{TITLE}}\"\n";
    let want = "# /src\n[book]\ntitle = \"A \\\"B\\\"\"\nauthors = [\"me\"]\nlanguage = \"en\"\nserver = \"http://p\"\nagain = \"A \\\"B\\\"A \\\"B\\\"\"\n";
    assert_eq!(fill_template(tmpl, &book_config()), want);
    let mut assets = Assets { files: Vec::new() };
    assert!(matches!(write_book_toml(&assets, &book_config()), Err(AssetError::Missing)));
    assets.files.push(Asset { path: "other".to_string(), data: Vec::new() });
    assets.files.push(Asset {
        path: "book-toml/book.toml.tmpl".to_string(),
        data: tmpl.as_bytes().to_vec(),
    });
    assert_eq!(write_book_toml(&assets, &book_config()).unwrap(), want);
    assets.files[1].data.push(0xc0);
    assert!(matches!(write_book_toml(&assets, &book_config()), Err(AssetError::NotUtf8)));
}

#[test]
fn themes_need_all_their_files() {
    let paths = [
        "themes/julian.jee/js/breadcrumb.js",
        "themes/julian.jee/css/breadcrumb.css",
        "themes/julian.jee/css/general.css",
        "themes/julian.jee/css/variables.css",
    ];
    let mut assets = Assets { files: Vec::new() };
    for p in paths {
        assert_eq!(
            install_theme(&assets).err().unwrap(),
            "themes/julian.jee/css/variables.css"
        );
        assets.files.push(Asset { path: p.to_string(), data: p.as_bytes().to_vec() });
    }
    let files = install_theme(&assets).ok().unwrap();
    let names: Vec<&str> = files.iter().map(|f| f.name.as_str()).collect();
    assert_eq!(
        names,
        [
            "julian-jee-variables.css",
            "julian-jee-general.css",
            "mdp-breadcrumb.css",
            "mdp-breadcrumb.js"
        ]
    );
    assert_eq!(files[3].data, b"themes/julian.jee/js/breadcrumb.js");
    assets.files.remove(2);
    assert_eq!(install_theme(&assets).err().unwrap(), "themes/julian.jee/css/general.css");
}

#[test]
fn files_of_the_program_are_listed() {
    let assets = Assets {
        files: vec![
            Asset { path: "a.txt".to_string(), data: b"text\n".to_vec() },
            Asset { path: "b.png".to_string(), data: vec![0xff, 0xfe] },
        ],
    };
    assert_eq!(dump::run(&assets), "===== a.txt =====\ntext\n\n===== b.png =====\n<2 bytes binary>\n");
    assert!(assets.get("c").is_none());
    assert_eq!(assets.get("b.png").unwrap(), [0xff, 0xfe]);
}
