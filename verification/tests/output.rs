use envfind::model::{Candidate, Manager, ProbeMode, ProbeResult};
use envfind::output::render_table;

fn cand(manager: Manager, env: &str, python: &str) -> Candidate {
    Candidate {
        manager,
        env_path: env.to_string(),
        python_path: python.to_string(),
        probe_mode: ProbeMode::Interpreter,
    }
}

#[test]
fn table_has_required_columns_and_full_paths() {
    let c = cand(Manager::System, r"C:\env", r"C:\env\python.exe");
    let r = ProbeResult {
        import_match: true,
        import_name: Some("json".into()),
        ..Default::default()
    };
    let table = render_table(&vec![(c, r)]);
    assert!(
        table.contains("MANAGER")
            && table.contains("ENV")
            && table.contains("PYTHON")
            && table.contains("MATCH")
    );
    assert!(table.contains(r"C:\env\python.exe"));
}

#[test]
fn table_lines_are_sorted_and_padded() {
    let hit = ProbeResult {
        import_match: true,
        import_name: Some("x".into()),
        ..Default::default()
    };
    let miss = ProbeResult::default();
    let table = render_table(&vec![
        (cand(Manager::System, "/b", "/b/python"), hit.clone()),
        (cand(Manager::Conda, "/Z", "/Z/python"), hit.clone()),
        (cand(Manager::Conda, "/a", "/a/python"), hit.clone()),
        (cand(Manager::Active, "/m", "/m/python"), miss),
    ]);
    let expected = "MANAGER  ENV  PYTHON     MATCH\n\
                    conda    /a   /a/python  import: x\n\
                    conda    /Z   /Z/python  import: x\n\
                    system   /b   /b/python  import: x\n";
    assert_eq!(table, expected);
    assert_eq!(render_table(&vec![]), "MANAGER  ENV  PYTHON  MATCH\n");
}
