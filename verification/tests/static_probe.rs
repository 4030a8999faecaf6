use envfind::static_probe::{
    canonicalize, capped_text, is_metadata_dir, metadata_name, probe_listing, top_level_names,
    valid_name, DistributionInfo, SiteEntry, StaticProbe, MAX_METADATA_BYTES,
};

#[test]
fn matches_distribution_without_executing_interpreter() {
    let mut probe = StaticProbe::new("scipy");
    probe.note_entry("scipy-1.0.dist-info", true);
    assert!(is_metadata_dir("scipy-1.0.dist-info"));
    let name = metadata_name("Metadata-Version: 2.1\nName: scipy\n").unwrap();
    let tops = top_level_names("scipy\n");
    probe.note_distribution(&name, &tops);
    let result = probe.finish().unwrap();
    assert!(result.import_match);
    assert!(result.distribution_match);
    assert_eq!(result.distribution_name.as_deref(), Some("scipy"));
    assert_eq!(result.import_name.as_deref(), Some("scipy"));
    assert_eq!(result.providers, vec!["scipy".to_string()]);
}

#[test]
fn distribution_names_treat_separators_alike() {
    assert_eq!(canonicalize("Scikit-Learn"), "scikitlearn");
    assert_eq!(canonicalize("scikit_learn"), canonicalize("scikit.learn"));
    assert_eq!(canonicalize("İx"), "i\u{307}x");
    assert_eq!(canonicalize("Scikit_Learn"), "scikitlearn");
    assert_eq!(canonicalize("scikit.learn"), canonicalize("SCIKIT-LEARN"));
    assert_eq!(canonicalize("ÄBC-d"), "äbcd");
}

#[test]
fn names_and_metadata_are_read_from_text() {
    assert!(valid_name("sklearn_2"));
    assert!(!valid_name(""));
    assert!(!valid_name("not-an-import"));
    assert_eq!(metadata_name("Summary: x\nName:   numpy  \nName: other\n").as_deref(), Some("numpy"));
    assert_eq!(metadata_name("Name:\nName: later\n"), None);
    assert_eq!(metadata_name("no name\n"), None);
    assert_eq!(
        top_level_names(" a \n\nb-c\n_d\r\n"),
        vec!["a".to_string(), "_d".to_string()]
    );
    assert!(!is_metadata_dir("scipy"));
    assert!(is_metadata_dir("pkg.egg-info"));
    assert_eq!(capped_text(b"Name: x".to_vec()).as_deref(), Some("Name: x"));
    assert_eq!(capped_text(vec![b'a'; MAX_METADATA_BYTES + 1]), None);
}

#[test]
fn no_match_gives_no_result() {
    let mut probe = StaticProbe::new("missing");
    probe.note_entry("other", true);
    probe.note_distribution("other", &vec!["other".to_string()]);
    assert!(probe.finish().is_none());
}

#[test]
fn import_root_matches_entries_and_providers_once() {
    let mut probe = StaticProbe::new("yaml.loader");
    probe.note_entry("yaml", false);
    probe.note_distribution("PyYAML", &vec!["yaml".to_string(), "_yaml".to_string()]);
    probe.note_distribution("PyYAML", &vec!["yaml".to_string()]);
    let r = probe.finish().unwrap();
    assert!(r.import_match && !r.distribution_match);
    assert_eq!(r.import_name.as_deref(), Some("yaml.loader"));
    assert_eq!(r.providers, vec!["PyYAML".to_string()]);
    assert!(r.top_level_imports.is_empty());
}

fn entry(name: &str, dist: Option<(&str, &[&str])>) -> SiteEntry {
    SiteEntry {
        name: name.to_string(),
        is_file_or_dir: true,
        distribution: dist.map(|(n, tops)| DistributionInfo {
            name: n.to_string(),
            top_levels: tops.iter().map(|t| t.to_string()).collect(),
        }),
    }
}

#[test]
fn listing_probe_finds_import_and_distribution() {
    let listing = vec![
        entry("sklearn", None),
        entry("scikit_learn-1.5.dist-info", Some(("scikit-learn", &["sklearn"][..]))),
        entry("other-1.0.dist-info", Some(("other", &["sklearn"][..]))),
        entry("again-1.0.dist-info", Some(("scikit-learn", &["sklearn"][..]))),
    ];
    let r = probe_listing("sklearn.svm", &listing).unwrap();
    assert!(r.import_match);
    assert!(!r.distribution_match);
    assert_eq!(r.import_name.as_deref(), Some("sklearn.svm"));
    assert_eq!(r.providers, vec!["scikit-learn".to_string(), "other".to_string()]);
    let d = probe_listing("Scikit_Learn", &listing).unwrap();
    assert!(d.distribution_match);
    assert!(!d.import_match);
    assert_eq!(d.distribution_name.as_deref(), Some("scikit-learn"));
    assert_eq!(d.top_level_imports, vec!["sklearn".to_string(), "sklearn".to_string()]);
    assert!(probe_listing("numpy", &listing).is_none());
    assert!(probe_listing("numpy", &Vec::new()).is_none());
}
