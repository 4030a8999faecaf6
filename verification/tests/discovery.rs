use envfind::discovery::conda::{parse_envs_dirs, registered_environments};
use envfind::discovery::poetry::parse_configured_path;
use envfind::discovery::windows_registry::{is_pep514_install_key, parse_registry_output};
use envfind::discovery::{default_providers, discover_all, uv_project_probe_mode, ProviderKind};
use envfind::model::{Candidate, Manager, ProbeMode};
use envfind::paths::{is_trusted_absolute_form, normalize_windows_path, path_key_of, PathStyle};

fn cand(manager: Manager, env: &str, python: &str) -> Candidate {
    Candidate {
        manager,
        env_path: env.to_string(),
        python_path: python.to_string(),
        probe_mode: ProbeMode::Interpreter,
    }
}

#[test]
fn higher_priority_manager_replaces_case_insensitive_duplicate() {
    let found = discover_all(
        vec![
            cand(Manager::System, "/tmp/system", "/tmp/fixture-python"),
            cand(Manager::Active, "/tmp/active", "/tmp/FIXTURE-PYTHON"),
        ],
        PathStyle::Unix,
    );
    assert_eq!(found.len(), 1);
    assert_eq!(found[0].manager, Manager::Active);
}

#[test]
fn relative_candidates_are_not_resolved_from_current_directory() {
    let found = discover_all(
        vec![cand(Manager::System, "relative-env", "relative-env/python.exe")],
        PathStyle::Unix,
    );
    assert!(found.is_empty());
    let found = discover_all(
        vec![cand(Manager::System, "relative-env", "relative-env\\python.exe")],
        PathStyle::Windows,
    );
    assert!(found.is_empty());
}

#[test]
fn discovery_uses_only_explicit_providers() {
    assert_eq!(
        default_providers(),
        vec![
            ProviderKind::Active,
            ProviderKind::WindowsRegistry,
            ProviderKind::Path,
            ProviderKind::Conda,
            ProviderKind::Uv,
            ProviderKind::Pyenv,
            ProviderKind::Poetry,
            ProviderKind::Pipenv,
        ]
    );
    let found = discover_all(vec![cand(Manager::Active, ".", "./python")], PathStyle::Unix);
    assert!(found.iter().all(|c| c.manager != Manager::Active || c.env_path != "."));
}

#[test]
fn equal_rank_keeps_first_report_and_orders_by_rank_then_path() {
    let found = discover_all(
        vec![
            cand(Manager::System, "/opt/b", "/opt/b/python"),
            cand(Manager::Conda, "/opt/c", "/opt/c/python"),
            cand(Manager::Conda, "/opt/a", "/opt/a/python"),
            cand(Manager::System, "/opt/other", "/opt/B/python"),
            cand(Manager::Uv, "/opt/x/./y/..", "/opt/x/python"),
        ],
        PathStyle::Unix,
    );
    let envs: Vec<&str> = found.iter().map(|c| c.env_path.as_str()).collect();
    assert_eq!(envs, vec!["/opt/a", "/opt/c", "/opt/x", "/opt/b"]);
    assert_eq!(found[3].manager, Manager::System);
    assert_eq!(found[3].python_path, "/opt/b/python");
}

#[test]
fn normalizes_duplicate_case_and_parent_segments() {
    let p = normalize_windows_path("/tmp/foo/../Bar", PathStyle::Unix).unwrap();
    assert_eq!(p, "/tmp/Bar");
    assert!(path_key_of(&p).ends_with("\\bar") || path_key_of(&p).ends_with("/bar"));
    let w = normalize_windows_path("C:/Users/me/./envs/../Python312//python.exe", PathStyle::Windows)
        .unwrap();
    assert_eq!(w, "C:\\Users\\me\\Python312\\python.exe");
    assert_eq!(path_key_of(&w), "c:\\users\\me\\python312\\python.exe");
    assert_eq!(normalize_windows_path("/..", PathStyle::Unix).unwrap(), "/");
    assert_eq!(normalize_windows_path("C:\\..\\x", PathStyle::Windows).unwrap(), "C:\\x");
}

#[test]
fn untrusted_path_forms_are_rejected() {
    assert!(!is_trusted_absolute_form("relative/python", PathStyle::Unix));
    assert!(is_trusted_absolute_form("/usr/bin/python", PathStyle::Unix));
    assert!(!is_trusted_absolute_form("\\\\server\\share\\python.exe", PathStyle::Windows));
    assert!(!is_trusted_absolute_form("\\\\?\\C:\\python.exe", PathStyle::Windows));
    assert!(!is_trusted_absolute_form("C:python.exe", PathStyle::Windows));
    assert!(is_trusted_absolute_form("c:\\python.exe", PathStyle::Windows));
    assert_eq!(normalize_windows_path("\\\\server\\share\\x", PathStyle::Windows), None);
}

#[test]
fn reads_virtualenvs_section_path() {
    let source = "[virtualenvs]\npath = \"C:/poetry-envs\"\n";
    assert_eq!(parse_configured_path(source), Some("C:/poetry-envs".to_string()));
    assert_eq!(
        parse_configured_path("virtualenvs.path = 'C:/legacy-envs'"),
        Some("C:/legacy-envs".to_string())
    );
}

#[test]
fn poetry_config_ignores_comments_and_other_tables() {
    let source = "# path = \"/wrong\"\n[tool]\npath = \"/not-this\"\n[virtualenvs] # table\nin-project = true\npath = \"/envs\" # where\n";
    assert_eq!(parse_configured_path(source), Some("/envs".to_string()));
    assert_eq!(parse_configured_path("[virtualenvs]\nvirtualenvs.path = '/x'\n"), None);
    assert_eq!(parse_configured_path(""), None);
}

#[test]
fn registry_parser_rejects_nested_non_pep514_keys() {
    let output = r#"
HKEY_CURRENT_USER\Software\Python\PythonCore\3.12\InstallPath
    (Default)    REG_SZ    C:\Python312
HKEY_CURRENT_USER\Software\Python\PythonCore\3.12\Nested\InstallPath
    (Default)    REG_SZ    C:\Untrusted
"#;
    let paths = parse_registry_output(output, PathStyle::Windows);
    assert_eq!(paths, vec![r"C:\Python312\python.exe".to_string()]);
}

#[test]
fn registry_parser_reads_executable_path_values() {
    let output = "HKEY_LOCAL_MACHINE\\Software\\Python\\pythoncore\\3.11\\installpath\r\n    ExecutablePath    REG_SZ    C:\\Py311\\python.exe\r\n    WindowedExecutablePath    REG_SZ    C:\\Py311\\pythonw.exe\r\n    (Default)    REG_SZ    C:\\Py311\\\r\n";
    assert_eq!(
        parse_registry_output(output, PathStyle::Windows),
        vec!["C:\\Py311\\python.exe".to_string(), "C:\\Py311\\python.exe".to_string()]
    );
    assert!(is_pep514_install_key("HKEY_CURRENT_USER\\Software\\Python\\PythonCore\\3.12\\InstallPath"));
    assert!(!is_pep514_install_key("HKEY_CURRENT_USER\\Software\\Python\\PythonCore\\\\InstallPath"));
    assert!(!is_pep514_install_key("HKEY_CURRENT_USER\\Software\\Python\\ContinuumAnalytics\\x\\InstallPath"));
    assert!(parse_registry_output("    (Default)    REG_SZ    C:\\NoKey\n", PathStyle::Windows).is_empty());
}

#[test]
fn condarc_envs_dirs_are_listed() {
    let text = "channels:\n  - defaults\nenvs_dirs:\n  - /data/envs\n  - \"/quoted/envs\"\nauto_activate_base: false\n  - /not-listed\n";
    assert_eq!(
        parse_envs_dirs(text),
        vec!["/data/envs".to_string(), "/quoted/envs".to_string()]
    );
    assert!(parse_envs_dirs("channels:\n  - defaults\n").is_empty());
}

#[test]
fn environments_txt_lists_registered_prefixes() {
    let text = "C:\\Users\\me\\miniconda3\r\n\n  # old env\n   \n  D:\\envs\\ml  \n#C:\\gone\n";
    assert_eq!(
        registered_environments(text),
        vec!["C:\\Users\\me\\miniconda3".to_string(), "D:\\envs\\ml".to_string()]
    );
    assert!(registered_environments("").is_empty());
    assert!(registered_environments("# only a comment").is_empty());
}

#[test]
fn nearest_project_venv_is_only_read() {
    assert_eq!(uv_project_probe_mode(false), ProbeMode::StaticMetadata);
    assert_eq!(uv_project_probe_mode(true), ProbeMode::Interpreter);
}

#[test]
fn normal_form_drops_dot_components_and_keeps_case() {
    assert_eq!(normalize_windows_path("/a/./b/../c", PathStyle::Unix).unwrap(), "/a/c");
    assert_eq!(
        normalize_windows_path("D:\\Envs\\.\\ML\\..\\Py", PathStyle::Windows).unwrap(),
        "D:\\Envs\\Py"
    );
    assert_eq!(normalize_windows_path("relative\\x", PathStyle::Windows), None);
}

#[test]
fn registry_default_directory_joins_with_the_host_separator() {
    let output = "HKEY_CURRENT_USER\\Software\\Python\\PythonCore\\3.12\\InstallPath\n    (Default)    REG_SZ    C:\\Python312\n";
    assert_eq!(
        parse_registry_output(output, PathStyle::Unix),
        vec!["C:\\Python312/python.exe".to_string()]
    );
    assert_eq!(
        parse_registry_output(output, PathStyle::Windows),
        vec!["C:\\Python312\\python.exe".to_string()]
    );
    let drive = "HKEY_CURRENT_USER\\Software\\Python\\PythonCore\\3.12\\InstallPath\n    (Default)    REG_SZ    D:\n";
    assert_eq!(parse_registry_output(drive, PathStyle::Windows), vec!["D:python.exe".to_string()]);
    assert_eq!(parse_registry_output(drive, PathStyle::Unix), vec!["D:/python.exe".to_string()]);
}
