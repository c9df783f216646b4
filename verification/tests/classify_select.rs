use release_artifacts::classify::{classify, ClassifyError};
use release_artifacts::model::{ArtifactDescriptor, Variant};
use release_artifacts::pipeline::{archive_suffix, run_selection};
use release_artifacts::select::{get_config_order, group_and_rank, select_best, ConfigOrder,
    SelectError};

fn desc(
    implementation: &str,
    version: &str,
    release_tag: &str,
    platform_triple: &str,
    build_config: &str,
    variant: Variant,
    url: &str,
) -> ArtifactDescriptor {
    ArtifactDescriptor {
        implementation: implementation.to_string(),
        version: version.to_string(),
        release_tag: release_tag.to_string(),
        platform_triple: platform_triple.to_string(),
        build_config: build_config.to_string(),
        variant,
        download_url: url.to_string(),
    }
}

fn same_desc(a: &ArtifactDescriptor, b: &ArtifactDescriptor) -> bool {
    a.implementation == b.implementation
        && a.version == b.version
        && a.release_tag == b.release_tag
        && a.platform_triple == b.platform_triple
        && a.build_config == b.build_config
        && matches!(
            (&a.variant, &b.variant),
            (Variant::Standalone, Variant::Standalone) | (Variant::Full, Variant::Full)
        )
        && a.download_url == b.download_url
}

#[test]
fn classify_standalone_recovers_fields() {
    let d = classify(
        "cpython-3.11.1+20230101-x86_64-unknown-linux-gnu-install_only.tar.gz",
        "https://example.invalid/a",
    )
    .unwrap();
    assert_eq!(d.implementation, "cpython");
    assert_eq!(d.version, "3.11.1");
    assert_eq!(d.release_tag, "20230101");
    assert_eq!(d.platform_triple, "x86_64-unknown-linux-gnu");
    assert_eq!(d.build_config, "");
    assert!(matches!(d.variant, Variant::Standalone));
    assert_eq!(d.download_url, "https://example.invalid/a");
}

#[test]
fn classify_full_recovers_fields_and_config() {
    let d = classify(
        "cpython-3.10.9+20230116-aarch64-apple-darwin-pgo+lto-full.tar.zst",
        "https://example.invalid/b",
    )
    .unwrap();
    assert_eq!(d.implementation, "cpython");
    assert_eq!(d.version, "3.10.9");
    assert_eq!(d.release_tag, "20230116");
    assert_eq!(d.platform_triple, "aarch64-apple-darwin");
    assert_eq!(d.build_config, "pgo+lto");
    assert!(matches!(d.variant, Variant::Full));
}

#[test]
fn classify_version_with_plus_and_dashes() {
    let d = classify(
        "cpython-3.13.0rc1+special-build+20240722-x86_64_v2-unknown-linux-musl-debug-full.tar.zst",
        "u",
    )
    .unwrap();
    assert_eq!(d.version, "3.13.0rc1+special-build");
    assert_eq!(d.release_tag, "20240722");
    assert_eq!(d.platform_triple, "x86_64_v2-unknown-linux-musl");
    assert_eq!(d.build_config, "debug");
}

#[test]
fn classify_rejects_unsupported_name() {
    let r = classify("cpython-3.11.1-20230101-x86_64-unknown-linux-gnu.tar.gz", "u");
    match r {
        Err(ClassifyError::UnsupportedFilename(f)) => {
            assert_eq!(f, "cpython-3.11.1-20230101-x86_64-unknown-linux-gnu.tar.gz");
        }
        _ => panic!("expected UnsupportedFilename"),
    }
}

#[test]
fn config_order_covers_closed_set() {
    assert!(matches!(get_config_order("pgo+lto"), Ok(ConfigOrder::PgoLto)));
    assert!(matches!(get_config_order("pgo"), Ok(ConfigOrder::Pgo)));
    assert!(matches!(get_config_order("lto"), Ok(ConfigOrder::Lto)));
    assert!(matches!(get_config_order("noopt"), Ok(ConfigOrder::Noopt)));
    assert!(matches!(get_config_order(""), Ok(ConfigOrder::Unspecified)));
    assert!(matches!(get_config_order("debug"), Ok(ConfigOrder::Debug)));
}

#[test]
fn config_order_rejects_unknown() {
    match get_config_order("fast") {
        Err(SelectError::UnknownBuildConfig(c)) => assert_eq!(c, "fast"),
        _ => panic!("expected UnknownBuildConfig"),
    }
}

#[test]
fn select_best_prefers_lowest_rank_in_any_order() {
    let a = desc("cpython", "3.11.1", "20230101", "x", "lto", Variant::Full, "ua");
    let b = desc("cpython", "3.11.1", "20230101", "x", "pgo", Variant::Full, "ub");
    let c = desc("cpython", "3.11.1", "20230101", "x", "debug", Variant::Full, "uc");
    let g1 = vec![a.clone(), b.clone(), c.clone()];
    let g2 = vec![c.clone(), a.clone(), b.clone()];
    let r1 = select_best(&g1).unwrap();
    let r2 = select_best(&g2).unwrap();
    assert!(same_desc(&r1, &b));
    assert!(same_desc(&r2, &b));
}

#[test]
fn select_best_empty_group_is_error() {
    let g: Vec<ArtifactDescriptor> = Vec::new();
    assert!(matches!(select_best(&g), Err(SelectError::EmptyGroup)));
}

#[test]
fn select_best_unknown_config_is_error() {
    let g = vec![desc("cpython", "3.11.1", "20230101", "x", "fast", Variant::Full, "u")];
    match select_best(&g) {
        Err(SelectError::UnknownBuildConfig(c)) => assert_eq!(c, "fast"),
        _ => panic!("expected UnknownBuildConfig"),
    }
}

#[test]
fn singleton_group_selects_its_member() {
    let only = desc("cpython", "3.11.1", "20230101", "x", "debug", Variant::Full, "u");
    let g = vec![only.clone()];
    let r = select_best(&g).unwrap();
    assert!(same_desc(&r, &only));
}

#[test]
fn group_and_rank_groups_by_identity() {
    let a = desc("cpython", "3.11.1", "20230101", "x", "pgo", Variant::Full, "ua");
    let b = desc("cpython", "3.11.1", "20230101", "y", "lto", Variant::Full, "ub");
    let c = desc("cpython", "3.11.1", "20230101", "x", "debug", Variant::Full, "uc");
    let groups = group_and_rank(&vec![a.clone(), b.clone(), c.clone()]);
    assert_eq!(groups.len(), 2);
    let gx = groups
        .iter()
        .find(|(k, _)| k.platform_triple == "x")
        .expect("group for x");
    assert_eq!(gx.1.len(), 2);
    assert!(same_desc(&gx.1[0], &a));
    assert!(same_desc(&gx.1[1], &c));
}

#[test]
fn pipeline_scenario_pairs_install_only_with_pgo() {
    let listing = vec![
        (
            "cpython-3.11.1+20230101-x86_64-unknown-linux-gnu-install_only.tar.gz".to_string(),
            "https://example.invalid/io".to_string(),
        ),
        (
            "cpython-3.11.1+20230101-x86_64-unknown-linux-gnu-pgo-full.tar.zst".to_string(),
            "https://example.invalid/pgo".to_string(),
        ),
        (
            "cpython-3.11.1+20230101-x86_64-unknown-linux-gnu-lto-full.tar.zst".to_string(),
            "https://example.invalid/lto".to_string(),
        ),
    ];
    let run = run_selection(&listing).unwrap();
    assert_eq!(run.results.len(), 1);
    let sel = &run.results[0];
    assert!(matches!(sel.standalone.variant, Variant::Standalone));
    assert_eq!(sel.standalone.download_url, "https://example.invalid/io");
    assert_eq!(sel.best_full.build_config, "pgo");
    assert_eq!(sel.best_full.download_url, "https://example.invalid/pgo");
}

#[test]
fn pipeline_is_deterministic_over_identical_listing() {
    let listing = vec![
        (
            "cpython-3.11.1+20230101-x86_64-unknown-linux-gnu-install_only.tar.gz".to_string(),
            "a".to_string(),
        ),
        (
            "cpython-3.11.1+20230101-x86_64-unknown-linux-gnu-noopt-full.tar.zst".to_string(),
            "b".to_string(),
        ),
        (
            "cpython-3.11.1+20230101-x86_64-unknown-linux-gnu-debug-full.tar.zst".to_string(),
            "c".to_string(),
        ),
    ];
    let r1 = run_selection(&listing).unwrap();
    let r2 = run_selection(&listing).unwrap();
    assert_eq!(r1.results.len(), r2.results.len());
    for (x, y) in r1.results.iter().zip(r2.results.iter()) {
        assert!(same_desc(&x.standalone, &y.standalone));
        assert!(same_desc(&x.best_full, &y.best_full));
    }
}

#[test]
fn unrecognized_suffix_is_excluded_before_classification() {
    assert!(!archive_suffix("cpython-3.11.1+20230101-x-install_only.zip"));
    assert!(archive_suffix("cpython-3.11.1+20230101-x-install_only.tar.gz"));
    assert!(archive_suffix("cpython-3.11.1+20230101-x-pgo-full.tar.zst"));
    // A name that classify would reject passes through the pipeline
    // untouched when its suffix is not an archive suffix.
    let listing = vec![("not-an-artifact.zip".to_string(), "u".to_string())];
    let run = run_selection(&listing).unwrap();
    assert_eq!(run.results.len(), 0);
    assert_eq!(run.standalones.len(), 0);
    assert_eq!(run.fulls.len(), 0);
}

#[test]
fn pipeline_aborts_on_unsupported_archive_name() {
    let listing = vec![("cpython-nonsense.tar.gz".to_string(), "u".to_string())];
    assert!(run_selection(&listing).is_err());
}

#[test]
fn pipeline_missing_group_is_fatal() {
    let listing = vec![(
        "cpython-3.11.1+20230101-x86_64-unknown-linux-gnu-install_only.tar.gz".to_string(),
        "a".to_string(),
    )];
    assert!(run_selection(&listing).is_err());
}

#[test]
fn classify_triple_containing_the_word_full() {
    let d = classify("cpython-3.11+20230101-x-full-pgo-full.tar.zst", "u").unwrap();
    assert_eq!(d.platform_triple, "x-full");
    assert_eq!(d.build_config, "pgo");
}

#[test]
fn classify_picks_the_last_plus_that_parses() {
    let d = classify("cpython-1+20230101-y+20230101-x86-pgo-full.tar.zst", "u").unwrap();
    assert_eq!(d.version, "1+20230101-y");
    assert_eq!(d.release_tag, "20230101");
    assert_eq!(d.platform_triple, "x86");
    assert_eq!(d.build_config, "pgo");
}

#[test]
fn classify_accepts_empty_version() {
    let d = classify("a-+20230101-x-install_only.tar.gz", "u").unwrap();
    assert_eq!(d.implementation, "a");
    assert_eq!(d.version, "");
    assert_eq!(d.platform_triple, "x");
}
