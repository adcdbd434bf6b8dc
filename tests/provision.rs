use std::io::Write;

use system_deps_binary::artifact::{read_artifacts, ArtifactSpec};
use system_deps_binary::cache::{check_valid_dir, TargetState};
use system_deps_binary::config::ConfigValue;
use system_deps_binary::error::ProvisionError;
use system_deps_binary::extract::{archive_kind, decode_payload, pkg_entry_path, suffix_of, ArchiveKind, Payload};
use system_deps_binary::provision::{local_path, plan_artifact, target_path, Action};
use system_deps_binary::text::join_path;

fn spec(name: &str, source: &str, checksum: Option<&str>, sub_paths: &[&str]) -> ArtifactSpec {
    ArtifactSpec {
        name: name.to_string(),
        source: source.to_string(),
        checksum: checksum.map(|c| c.to_string()),
        sub_paths: sub_paths.iter().map(|p| p.to_string()).collect(),
    }
}

fn dir(non_empty: bool, marker: Option<&str>) -> TargetState {
    TargetState::Directory { non_empty, marker: marker.map(|m| m.to_string()) }
}

/// The state that carrying out a plan leaves, for a run that fills the target.
fn after(plan: &system_deps_binary::provision::Plan, before: TargetState) -> TargetState {
    let mut state = before;
    if let (TargetState::Directory { marker, .. }, Some(c)) = (&mut state, &plan.marker_before) {
        *marker = Some(c.clone());
    }
    match plan.action {
        Action::UseCached => state,
        _ => {
            let old = match state {
                TargetState::Directory { marker, .. } => marker,
                _ => None,
            };
            TargetState::Directory { non_empty: true, marker: plan.marker_after.clone().or(old) }
        }
    }
}

#[test]
fn end_to_end_remote_tar_gz() {
    let config = vec![(
        "libfoo".to_string(),
        ConfigValue::Table(vec![
            ("source".to_string(), ConfigValue::Text("https://example.test/libfoo.tar.gz".to_string())),
            ("checksum".to_string(), ConfigValue::Text("abc123".to_string())),
            (
                "subPaths".to_string(),
                ConfigValue::List(vec![ConfigValue::Text("lib/pkgconfig".to_string())]),
            ),
        ]),
    )];
    let specs = read_artifacts("system-deps", &config).unwrap();
    assert_eq!(specs.len(), 1);
    let plan = plan_artifact("/root", &specs[0], &TargetState::Missing, false).unwrap();
    assert_eq!(plan.target, "/root/libfoo");
    assert_eq!(plan.marker_before, None);
    match &plan.action {
        Action::Download { url, kind } => {
            assert_eq!(url, "https://example.test/libfoo.tar.gz");
            assert_eq!(*kind, ArchiveKind::TarGz);
        }
        other => panic!("unexpected action {:?}", other),
    }
    assert_eq!(plan.marker_after, Some("abc123".to_string()));
    assert_eq!(plan.outputs, vec!["/root/libfoo/lib/pkgconfig".to_string()]);
}

#[test]
fn second_run_is_cached() {
    let s = spec("libfoo", "https://example.test/libfoo.tar.xz", Some("c1"), &["lib"]);
    let first = plan_artifact("/r", &s, &TargetState::Missing, false).unwrap();
    assert!(matches!(first.action, Action::Download { kind: ArchiveKind::TarXz, .. }));
    let state = after(&first, TargetState::Missing);
    match &state {
        TargetState::Directory { marker, .. } => assert_eq!(marker.as_deref(), Some("c1")),
        _ => panic!("no directory"),
    }
    let second = plan_artifact("/r", &s, &state, false).unwrap();
    assert!(matches!(second.action, Action::UseCached));
    assert_eq!(second.marker_before, Some("c1".to_string()));
    assert_eq!(second.marker_after, None);
    assert_eq!(second.outputs, vec!["/r/libfoo/lib".to_string()]);
}

#[test]
fn changed_checksum_reprovisions() {
    let s = spec("libfoo", "https://example.test/libfoo.zip", Some("new"), &[]);
    let plan = plan_artifact("/r", &s, &dir(true, Some("old")), false).unwrap();
    assert!(matches!(plan.action, Action::Download { kind: ArchiveKind::Zip, .. }));
    assert_eq!(plan.marker_before, Some("new".to_string()));
    assert_eq!(plan.marker_after, Some("new".to_string()));
}

#[test]
fn target_is_file_is_rejected() {
    let s = spec("libfoo", "https://example.test/libfoo.zip", Some("c"), &[]);
    let err = plan_artifact("/r", &s, &TargetState::File, false).unwrap_err();
    assert_eq!(err, ProvisionError::CacheIo { path: "/r/libfoo".to_string() });
    assert_eq!(err.description(), "The target directory is a file /r/libfoo");
    assert!(check_valid_dir("/r/x", &TargetState::File, &None).is_err());
}

#[test]
fn local_directory_is_linked() {
    let s = spec("libfoo", "file:///opt/prebuilt/libfoo", None, &["lib/pkgconfig"]);
    let plan = plan_artifact("/r", &s, &TargetState::Missing, true).unwrap();
    match &plan.action {
        Action::Link { dir } => assert_eq!(dir, "/opt/prebuilt/libfoo"),
        other => panic!("unexpected action {:?}", other),
    }
    assert_eq!(plan.outputs, vec!["/r/libfoo/lib/pkgconfig".to_string()]);
}

#[test]
fn local_archive_is_read() {
    let s = spec("", "file:///tmp/a.tar.gz", None, &["x"]);
    let plan = plan_artifact("/r", &s, &TargetState::Missing, false).unwrap();
    assert_eq!(plan.target, "/r");
    match &plan.action {
        Action::ReadLocal { path, kind } => {
            assert_eq!(path, "/tmp/a.tar.gz");
            assert_eq!(*kind, ArchiveKind::TarGz);
        }
        other => panic!("unexpected action {:?}", other),
    }
    assert_eq!(plan.outputs, vec!["/r/x".to_string()]);
}

#[test]
fn unsupported_suffix_is_refused() {
    let s = spec("libfoo", "https://example.test/libfoo.rar", None, &[]);
    let err = plan_artifact("/r", &s, &TargetState::Missing, false).unwrap_err();
    assert_eq!(
        err,
        ProvisionError::UnsupportedFormat {
            source: "https://example.test/libfoo.rar".to_string(),
            suffix: "rar".to_string()
        }
    );
    let s = spec("libfoo", "file:///tmp/libfoo.rar", None, &[]);
    let err = plan_artifact("/r", &s, &TargetState::Missing, false).unwrap_err();
    assert!(matches!(err, ProvisionError::UnsupportedFormat { ref suffix, .. } if suffix == "rar"));
}

#[test]
fn cache_policy_without_checksum() {
    assert_eq!(check_valid_dir("/d", &dir(true, None), &None), Ok(true));
    assert_eq!(check_valid_dir("/d", &dir(false, Some("x")), &None), Ok(false));
    assert_eq!(check_valid_dir("/d", &TargetState::Missing, &None), Ok(false));
    assert_eq!(check_valid_dir("/d", &dir(false, Some("x")), &Some("x".to_string())), Ok(true));
    assert_eq!(check_valid_dir("/d", &dir(true, None), &Some("x".to_string())), Ok(false));
    let s = spec("libfoo", "https://example.test/libfoo.pkg", None, &[]);
    let plan = plan_artifact("/r", &s, &dir(true, None), false).unwrap();
    assert!(matches!(plan.action, Action::UseCached));
    assert_eq!(plan.marker_before, None);
}

#[test]
fn archive_kinds_and_suffixes() {
    assert_eq!(archive_kind("a.tar.gz"), Some(ArchiveKind::TarGz));
    assert_eq!(archive_kind("a.tar.xz"), Some(ArchiveKind::TarXz));
    assert_eq!(archive_kind("a.zip"), Some(ArchiveKind::Zip));
    assert_eq!(archive_kind("a.pkg"), Some(ArchiveKind::Pkg));
    assert_eq!(archive_kind("a.gz"), None);
    assert_eq!(suffix_of("https://x/a.b.rar"), "rar");
    assert_eq!(suffix_of("noext"), "noext");
    assert_eq!(suffix_of("trailing."), "");
}

#[test]
fn paths_are_joined() {
    assert_eq!(join_path("/a", "b"), "/a/b");
    assert_eq!(join_path("/a/", "b"), "/a/b");
    assert_eq!(join_path("/a", "/abs"), "/abs");
    assert_eq!(join_path("", "b"), "b");
    assert_eq!(target_path("/root", ""), "/root");
    assert_eq!(target_path("/root", "lib"), "/root/lib");
    assert_eq!(local_path("file:///x/y"), Some("/x/y".to_string()));
    assert_eq!(local_path("https://x/y"), None);
}

#[test]
fn gzip_layer_is_decoded() {
    let mut enc = flate2::write::GzEncoder::new(Vec::new(), flate2::Compression::default());
    enc.write_all(b"tar stream bytes").unwrap();
    let gz = enc.finish().unwrap();
    match decode_payload(ArchiveKind::TarGz, gz).unwrap() {
        Payload::Tar(t) => assert_eq!(t, b"tar stream bytes".to_vec()),
        other => panic!("unexpected payload {:?}", other),
    }
    let err = decode_payload(ArchiveKind::TarGz, b"not gzip".to_vec()).unwrap_err();
    assert!(matches!(err, ProvisionError::Extract { .. }));
}

#[test]
fn xz_layer_is_decoded() {
    let mut enc = xz::write::XzEncoder::new(Vec::new(), 6);
    enc.write_all(b"xz tar bytes").unwrap();
    let data = enc.finish().unwrap();
    match decode_payload(ArchiveKind::TarXz, data).unwrap() {
        Payload::Tar(t) => assert_eq!(t, b"xz tar bytes".to_vec()),
        other => panic!("unexpected payload {:?}", other),
    }
    assert!(decode_payload(ArchiveKind::TarXz, b"not xz".to_vec()).is_err());
}

#[test]
fn zip_and_pkg_pass_through() {
    match decode_payload(ArchiveKind::Zip, vec![1, 2, 3]).unwrap() {
        Payload::Zip(z) => assert_eq!(z, vec![1, 2, 3]),
        other => panic!("unexpected payload {:?}", other),
    }
    match decode_payload(ArchiveKind::Pkg, vec![4]).unwrap() {
        Payload::Pkg(p) => assert_eq!(p, vec![4]),
        other => panic!("unexpected payload {:?}", other),
    }
}

#[test]
fn pkg_entries_of_size_zero_are_skipped() {
    assert_eq!(pkg_entry_path("/r/libfoo", "usr/lib", 0), Ok(None));
    assert_eq!(
        pkg_entry_path("/r/libfoo", "./usr/lib/a.pc", 12),
        Ok(Some("/r/libfoo/./usr/lib/a.pc".to_string()))
    );
    assert_eq!(pkg_entry_path("/r/libfoo", "a..b/c", 1), Ok(Some("/r/libfoo/a..b/c".to_string())));
}

#[test]
fn pkg_entries_leaving_the_target_are_refused() {
    for name in ["../etc/passwd", "usr/../../x", "/etc/passwd", "a/.."] {
        let err = pkg_entry_path("/r/libfoo", name, 3).unwrap_err();
        assert_eq!(
            err.description(),
            format!("Extraction error: the entry leaves the target directory: {}", name)
        );
    }
}

#[test]
fn missing_file() {
    // a local archive is planned to be read; reading a missing one fails
    let s = spec("libfoo", "file:///missing/libfoo.tar.gz", None, &[]);
    let plan = plan_artifact("/r", &s, &TargetState::Missing, false).unwrap();
    let path = match plan.action {
        Action::ReadLocal { path, .. } => path,
        other => panic!("unexpected action {:?}", other),
    };
    let err = ProvisionError::Open { path, reason: "No such file or directory".to_string() };
    assert!(err.description().starts_with("Error opening"));
    assert_eq!(err.description(), "Error opening /missing/libfoo.tar.gz: No such file or directory");
}

#[test]
fn provision_error_descriptions() {
    let e = ProvisionError::Fetch { source: "https://x/a.zip".to_string(), reason: "404".to_string() };
    assert_eq!(e.description(), "Download error for https://x/a.zip: 404");
    let e = ProvisionError::UnsupportedFormat { source: "a.rar".to_string(), suffix: "rar".to_string() };
    assert_eq!(e.description(), "Unsupported binary extension rar of a.rar");
}
