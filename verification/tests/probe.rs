use envfind::model::{Candidate, Manager, ProbeMode, ProbeResult};
use envfind::probe::{
    append_capped, collect_matches, json_array, json_bool, json_string, json_value,
    next_probe_step, parse_result, parse_result_text, probe_arguments, probe_route, render_match,
    unescape, worker_count, ProbeRoute, ProbeStep, WaitStatus, MAX_PROBE_STDOUT, PROBE_SCRIPT,
};

#[test]
fn json_parser_reads_protocol() {
    let input = r#"{"import_match":true,"distribution_match":false,"import_name":"x","distribution_name":null,"providers":["dist"],"top_level_imports":[]}"#;
    assert_eq!(json_bool(input, "import_match"), Some(true));
    assert_eq!(json_string(input, "import_name").as_deref(), Some("x"));
    assert_eq!(json_array(input, "providers"), vec!["dist"]);
}

#[test]
fn json_values_handle_escapes_and_missing_keys() {
    let input = r#"{"a":"say \"hi\" \\","b": false ,"c":["x\"y", "z"],"d":7}"#;
    assert_eq!(json_value(input, "a").as_deref(), Some(r#""say \"hi\" \\""#));
    assert_eq!(json_string(input, "a").as_deref(), Some(r#"say "hi" \"#));
    assert_eq!(json_bool(input, "b"), Some(false));
    assert_eq!(json_array(input, "c"), vec!["x\"y".to_string(), "z".to_string()]);
    assert_eq!(json_value(input, "d").as_deref(), Some("7"));
    assert_eq!(json_bool(input, "d"), None);
    assert_eq!(json_value(input, "missing"), None);
    assert_eq!(json_string(r#"{"n":null}"#, "n"), None);
    assert_eq!(unescape(r#"a\\\"b"#), r#"a\"b"#);
}

#[test]
fn probe_uses_direct_interpreter_arguments() {
    let args = probe_arguments("query with spaces");
    assert_eq!(args[0], "-I");
    assert_eq!(args[1], "-c");
    assert_eq!(args[3], "query with spaces");
    assert_eq!(std::path::Path::new("python.exe").file_name().unwrap(), "python.exe");
}

#[test]
fn probe_arguments_are_not_shell_commands() {
    let args = probe_arguments("x; rm -rf /");
    assert_eq!(args, ["-I", "-c", PROBE_SCRIPT, "x; rm -rf /"]);
    for arg in args {
        assert!(!arg.contains("cmd.exe"));
        assert!(!arg.contains("powershell"));
    }
}

#[test]
fn renders_import_and_package_matches() {
    let import = ProbeResult {
        import_match: true,
        import_name: Some("sklearn".into()),
        providers: vec!["scikit-learn".into()],
        ..Default::default()
    };
    assert_eq!(
        render_match(&import).as_deref(),
        Some("import: sklearn <- scikit-learn")
    );
    let package = ProbeResult {
        distribution_match: true,
        distribution_name: Some("scikit-learn".into()),
        top_level_imports: vec!["sklearn".into()],
        ..Default::default()
    };
    assert_eq!(
        render_match(&package).as_deref(),
        Some("package: scikit-learn -> sklearn")
    );
    let both = ProbeResult {
        import_match: true,
        distribution_match: true,
        ..Default::default()
    };
    assert_eq!(render_match(&both).as_deref(), Some("import+package: query"));
}

#[test]
fn no_match_is_omitted() {
    assert!(render_match(&ProbeResult::default()).is_none());
}

#[test]
fn completed_no_match_is_not_a_result() {
    let candidate = Candidate {
        manager: Manager::System,
        env_path: "env".to_string(),
        python_path: "python".to_string(),
        probe_mode: ProbeMode::Interpreter,
    };
    let found = collect_matches(vec![candidate], vec![Some(ProbeResult::default())]);
    assert!(found.is_empty());
}

#[test]
fn failed_probes_are_dropped_and_matches_kept_in_order() {
    let mk = |n: &str| Candidate {
        manager: Manager::Uv,
        env_path: format!("/e/{n}"),
        python_path: format!("/e/{n}/python"),
        probe_mode: ProbeMode::Interpreter,
    };
    let hit = ProbeResult { distribution_match: true, ..Default::default() };
    let found = collect_matches(
        vec![mk("a"), mk("b"), mk("c")],
        vec![Some(hit.clone()), None, Some(hit.clone())],
    );
    let envs: Vec<&str> = found.iter().map(|(c, _)| c.env_path.as_str()).collect();
    assert_eq!(envs, vec!["/e/a", "/e/c"]);
}

#[test]
fn protocol_line_is_found_among_other_output() {
    let text = "noise\r\nENVFIND_RESULT={\"import_match\":false,\"distribution_match\":true,\"import_name\":null,\"distribution_name\":\"SciPy\",\"providers\":[],\"top_level_imports\":[\"scipy\"]}\n";
    let r = parse_result_text(text).unwrap();
    assert!(!r.import_match && r.distribution_match);
    assert_eq!(r.distribution_name.as_deref(), Some("SciPy"));
    assert_eq!(r.top_level_imports, vec!["scipy".to_string()]);
    assert!(parse_result(text.as_bytes().to_vec()).is_some());
    assert!(parse_result_text("ENVFIND_RESULT={\"import_match\":true}").is_none());
    assert!(parse_result(b"no protocol here".to_vec()).is_none());
    let mut bytes = b"ENVFIND_RESULT={\"import_match\":true,\"distribution_match\":false,\"import_name\":\"j\xffson\"}".to_vec();
    bytes.push(b'\n');
    let r = parse_result(bytes).unwrap();
    assert_eq!(r.import_name.as_deref(), Some("j\u{fffd}son"));
}

#[test]
fn oversized_probe_output_is_rejected() {
    let mut out = Vec::new();
    assert!(append_capped(&mut out, &vec![b'x'; 8192]));
    assert_eq!(out.len(), 8192);
    let big = vec![b'x'; MAX_PROBE_STDOUT - 8192];
    assert!(append_capped(&mut out, &big));
    assert_eq!(out.len(), MAX_PROBE_STDOUT);
    assert!(!append_capped(&mut out, b"y"));
    assert_eq!(out.len(), MAX_PROBE_STDOUT);
}

#[test]
fn probe_steps_follow_the_process() {
    assert_eq!(next_probe_step(WaitStatus::Exited(true), true), ProbeStep::ReadResult);
    assert_eq!(next_probe_step(WaitStatus::Exited(false), true), ProbeStep::Discard);
    assert_eq!(next_probe_step(WaitStatus::Running, true), ProbeStep::Wait);
    assert_eq!(next_probe_step(WaitStatus::Running, false), ProbeStep::Terminate);
    assert_eq!(next_probe_step(WaitStatus::Failed, true), ProbeStep::Terminate);
}

#[test]
fn worker_pool_is_bounded() {
    assert_eq!(worker_count(16, 20), 8);
    assert_eq!(worker_count(0, 20), 1);
    assert_eq!(worker_count(4, 2), 2);
    assert_eq!(worker_count(4, 0), 0);
    for cpus in 0..20 {
        for n in 1..30 {
            let w = worker_count(cpus, n);
            assert!(w >= 1 && w <= 8 && w <= n);
        }
    }
}

#[test]
fn only_interpreter_candidates_are_run() {
    let mut c = Candidate {
        manager: Manager::Uv,
        env_path: "C:\\proj\\.venv".to_string(),
        python_path: "C:\\proj\\.venv\\Scripts\\python.exe".to_string(),
        probe_mode: ProbeMode::StaticMetadata,
    };
    assert_eq!(probe_route(&c), ProbeRoute::ReadMetadata);
    c.probe_mode = ProbeMode::Interpreter;
    assert_eq!(probe_route(&c), ProbeRoute::RunInterpreter);
}

#[test]
fn output_read_in_chunks_is_capped_as_a_whole() {
    let mut out = Vec::new();
    let half = vec![b'x'; MAX_PROBE_STDOUT / 2];
    assert!(append_capped(&mut out, &half));
    assert!(append_capped(&mut out, &half));
    assert_eq!(out.len(), MAX_PROBE_STDOUT);
    assert!(!append_capped(&mut out, b"y"));
    assert_eq!(out.len(), MAX_PROBE_STDOUT);
}

#[test]
fn printed_result_reads_back_after_other_output() {
    let out = "warming up\nENVFIND_RESULT_X=1\nENVFIND_RESULT={\"import_match\":true,\"distribution_match\":false,\"import_name\":\"sklearn.svm\",\"distribution_name\":null,\"providers\":[\"scikit-learn\",\"sk_extra\"],\"top_level_imports\":[]}\n";
    let r = parse_result(out.as_bytes().to_vec()).unwrap();
    assert!(r.import_match);
    assert!(!r.distribution_match);
    assert_eq!(r.import_name.as_deref(), Some("sklearn.svm"));
    assert_eq!(r.distribution_name, None);
    assert_eq!(r.providers, vec!["scikit-learn".to_string(), "sk_extra".to_string()]);
    assert!(r.top_level_imports.is_empty());
    assert!(parse_result(b"no protocol line\n".to_vec()).is_none());
    assert!(parse_result(b"ENVFIND_RESULT={\"import_match\":maybe,\"distribution_match\":false}\n".to_vec()).is_none());
}
