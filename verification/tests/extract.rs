use release_artifacts::metadata::{extract_entry, parse_metadata, ExtractError};
use release_artifacts::tar::{tar_find_entry, tar_probe_entry, ProbeStep, TarError};

fn header(name: &str, size: usize) -> Vec<u8> {
    let mut h = vec![0u8; 512];
    let nb = name.as_bytes();
    h[..nb.len()].copy_from_slice(nb);
    let oct = format!("{:011o}", size);
    h[124..135].copy_from_slice(oct.as_bytes());
    h[135] = 0;
    h
}

fn tar_archive(entries: &[(&str, &[u8])]) -> Vec<u8> {
    let mut out = Vec::new();
    for (name, payload) in entries {
        out.extend_from_slice(&header(name, payload.len()));
        out.extend_from_slice(payload);
        let pad = (512 - payload.len() % 512) % 512;
        out.extend_from_slice(&vec![0u8; pad]);
    }
    out.extend_from_slice(&vec![0u8; 1024]);
    out
}

fn compress(bytes: &[u8]) -> Vec<u8> {
    zstd::stream::encode_all(bytes, 0).unwrap()
}

#[test]
fn round_trip_extracts_known_metadata() {
    let json = br#"{"apple_sdk_deployment_target":"11.0","crt_features":["static","ucrt"]}"#;
    let tar = tar_archive(&[
        ("python/README", b"hello world"),
        ("python/PYTHON.json", json),
        ("python/bin/python3", b"\x7fELF"),
    ]);
    let compressed = compress(&tar);
    let m = extract_entry(&compressed, "python/PYTHON.json").unwrap();
    assert_eq!(m.apple_sdk_deployment_target.as_deref(), Some("11.0"));
    assert_eq!(
        m.crt_features,
        Some(vec!["static".to_string(), "ucrt".to_string()])
    );
}

#[test]
fn missing_entry_is_entry_not_found() {
    let tar = tar_archive(&[("python/README", b"hello")]);
    let compressed = compress(&tar);
    match extract_entry(&compressed, "python/PYTHON.json") {
        Err(ExtractError::EntryNotFound(p)) => assert_eq!(p, "python/PYTHON.json"),
        _ => panic!("expected EntryNotFound"),
    }
}

#[test]
fn malformed_document_is_metadata_parse_error_not_entry_not_found() {
    let tar = tar_archive(&[("python/PYTHON.json", b"{not json")]);
    let compressed = compress(&tar);
    assert!(matches!(
        extract_entry(&compressed, "python/PYTHON.json"),
        Err(ExtractError::MetadataParse)
    ));
}

#[test]
fn absent_fields_are_tolerated() {
    let tar = tar_archive(&[("python/PYTHON.json", b"{}")]);
    let compressed = compress(&tar);
    let m = extract_entry(&compressed, "python/PYTHON.json").unwrap();
    assert!(m.apple_sdk_deployment_target.is_none());
    assert!(m.crt_features.is_none());
}

#[test]
fn wrong_shape_field_is_metadata_parse_error() {
    let tar = tar_archive(&[("python/PYTHON.json", br#"{"crt_features":"oops"}"#)]);
    let compressed = compress(&tar);
    assert!(matches!(
        extract_entry(&compressed, "python/PYTHON.json"),
        Err(ExtractError::MetadataParse)
    ));
}

#[test]
fn undecodable_stream_is_bad_compression() {
    assert!(matches!(
        extract_entry(b"definitely not zstd", "python/PYTHON.json"),
        Err(ExtractError::BadCompression)
    ));
}

#[test]
fn corrupt_size_field_is_corrupt_archive() {
    let mut tar = tar_archive(&[("python/README", b"hello")]);
    tar[124] = b'x';
    let compressed = compress(&tar);
    assert!(matches!(
        extract_entry(&compressed, "python/PYTHON.json"),
        Err(ExtractError::CorruptArchive)
    ));
}

#[test]
fn tar_walk_returns_first_match_payload() {
    let tar = tar_archive(&[
        ("a.txt", b"first"),
        ("b.txt", b"second"),
        ("a.txt", b"third"),
    ]);
    let got = tar_find_entry(&tar, b"a.txt").unwrap();
    assert_eq!(got, b"first");
    let got_b = tar_find_entry(&tar, b"b.txt").unwrap();
    assert_eq!(got_b, b"second");
}

#[test]
fn tar_walk_ignores_bytes_after_the_match() {
    let mut tar = tar_archive(&[("a.txt", b"payload")]);
    tar.extend_from_slice(b"trailing garbage that is never read");
    let got = tar_find_entry(&tar, b"a.txt").unwrap();
    assert_eq!(got, b"payload");
}

#[test]
fn tar_walk_without_match_is_not_found() {
    let tar = tar_archive(&[("a.txt", b"payload")]);
    assert!(matches!(tar_find_entry(&tar, b"z.txt"), Err(TarError::NotFound)));
}

#[test]
fn truncated_archive_is_corrupt() {
    let tar = tar_archive(&[("a.txt", &[7u8; 2000])]);
    let cut = &tar[..700];
    assert!(matches!(tar_find_entry(cut, b"a.txt"), Err(TarError::Corrupt)));
}

#[test]
fn parse_metadata_accepts_document_without_target() {
    let m = parse_metadata(br#"{"crt_features":[]}"#).unwrap();
    assert!(m.apple_sdk_deployment_target.is_none());
    assert_eq!(m.crt_features, Some(Vec::new()));
}

#[test]
fn probe_gives_a_final_verdict_before_the_stream_ends() {
    let tar = tar_archive(&[("a.txt", b"payload"), ("b.txt", b"rest")]);
    let mut verdict = None;
    for cut in 0..=tar.len() {
        match tar_probe_entry(&tar[..cut], b"b.txt") {
            ProbeStep::NeedMore => {}
            other => {
                verdict = Some((cut, other));
                break;
            }
        }
    }
    let (cut, v) = verdict.expect("a verdict before the end");
    assert!(cut < tar.len());
    assert_eq!(v, ProbeStep::Found(b"rest".to_vec()));
}

#[test]
fn unknown_extra_fields_are_ignored() {
    let json = br#"{"python_version":"3.11.1","crt_features":["a"],"tier":2}"#;
    let tar = tar_archive(&[("python/PYTHON.json", json)]);
    let compressed = compress(&tar);
    let m = extract_entry(&compressed, "python/PYTHON.json").unwrap();
    assert!(m.apple_sdk_deployment_target.is_none());
    assert_eq!(m.crt_features, Some(vec!["a".to_string()]));
}
