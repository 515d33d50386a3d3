//! Fingerprint and staleness scenarios over in-memory workspaces.

use callscope::fingerprint::{diverged_files, fingerprint_workspace, fnv1a_64_hex, unix_secs_to_rfc3339, SourceFile};

fn file(path: &str, content: &str) -> SourceFile {
    SourceFile {
        components: path.split('/').map(|c| c.to_string()).collect(),
        bytes: content.as_bytes().to_vec(),
    }
}

fn sample_workspace() -> (Vec<SourceFile>, Option<Vec<u8>>) {
    (
        vec![file("src/a.rs", "fn a() {}\n"), file("src/b.rs", "fn b() -> u32 { 0 }\n")],
        Some(b"# lockfile v1\n".to_vec()),
    )
}

fn keys(pairs: &[(String, String)]) -> Vec<String> {
    pairs.iter().map(|(k, _)| k.clone()).collect()
}

fn hash_of(pairs: &[(String, String)], key: &str) -> String {
    pairs.iter().find(|(k, _)| k == key).map(|(_, h)| h.clone()).expect("key present")
}

#[test]
fn fingerprint_is_stable_across_runs_on_identical_content() {
    let (files, lock) = sample_workspace();
    let first = fingerprint_workspace(&files, &lock, "nightly-2026-07-26", 1_700_000_000);
    let second = fingerprint_workspace(&files, &lock, "nightly-2026-07-26", 1_700_000_042);

    assert_eq!(first.file_hashes, second.file_hashes);
    assert_eq!(first.cargo_lock_hash, second.cargo_lock_hash);
    assert_eq!(first.toolchain, second.toolchain);
    assert_eq!(keys(&first.file_hashes), vec!["src/a.rs".to_string(), "src/b.rs".to_string()]);
}

#[test]
fn identical_workspace_reports_no_divergence() {
    let (files, lock) = sample_workspace();
    let manifest = fingerprint_workspace(&files, &lock, "tc", 0);
    assert!(diverged_files(&manifest, &files, &lock).is_empty());
}

#[test]
fn changed_content_flips_hash_and_reports_exactly_that_file() {
    let (files, lock) = sample_workspace();
    let manifest = fingerprint_workspace(&files, &lock, "tc", 0);
    let before = hash_of(&manifest.file_hashes, "src/a.rs");

    let edited = vec![file("src/a.rs", "fn a() { let _ = 1 + 1; }\n"), file("src/b.rs", "fn b() -> u32 { 0 }\n")];
    let refreshed = fingerprint_workspace(&edited, &lock, "tc", 0);
    assert_ne!(before, hash_of(&refreshed.file_hashes, "src/a.rs"));
    assert_eq!(hash_of(&manifest.file_hashes, "src/b.rs"), hash_of(&refreshed.file_hashes, "src/b.rs"));

    assert_eq!(diverged_files(&manifest, &edited, &lock), vec!["src/a.rs".to_string()]);
}

#[test]
fn added_file_is_detected() {
    let (mut files, lock) = sample_workspace();
    let manifest = fingerprint_workspace(&files, &lock, "tc", 0);
    files.push(file("src/c.rs", "fn c() {}\n"));
    assert_eq!(diverged_files(&manifest, &files, &lock), vec!["src/c.rs".to_string()]);
}

#[test]
fn removed_file_is_detected() {
    let (mut files, lock) = sample_workspace();
    let manifest = fingerprint_workspace(&files, &lock, "tc", 0);
    files.pop();
    assert_eq!(diverged_files(&manifest, &files, &lock), vec!["src/b.rs".to_string()]);
}

#[test]
fn cargo_lock_change_is_detected() {
    let (files, lock) = sample_workspace();
    let manifest = fingerprint_workspace(&files, &lock, "tc", 0);
    let new_lock = Some(b"# lockfile v1\n# new dependency pinned\n".to_vec());
    assert_eq!(diverged_files(&manifest, &files, &new_lock), vec!["Cargo.lock".to_string()]);
}

#[test]
fn missing_lockfile_on_both_sides_is_not_stale() {
    let (files, _) = sample_workspace();
    let manifest = fingerprint_workspace(&files, &None, "tc", 0);
    assert_eq!(manifest.cargo_lock_hash, "");
    assert!(diverged_files(&manifest, &files, &None).is_empty());
}

#[test]
fn target_and_hidden_dirs_are_excluded() {
    let files = vec![
        file("src/lib.rs", "fn real() {}\n"),
        file("target/debug/generated.rs", "fn build_output() {}\n"),
        file(".hidden/secret.rs", "fn hidden() {}\n"),
        file("src/notes.txt", "not rust\n"),
        file("src/.rs", "not an rs extension\n"),
    ];
    let manifest = fingerprint_workspace(&files, &None, "tc", 0);
    assert_eq!(keys(&manifest.file_hashes), vec!["src/lib.rs".to_string()]);
}

#[test]
fn divergence_lists_every_kind_once_in_order() {
    let (files, lock) = sample_workspace();
    let manifest = fingerprint_workspace(&files, &lock, "tc", 0);
    let now = vec![file("src/b.rs", "fn b() -> u32 { 1 }\n"), file("src/0.rs", "fn zero() {}\n")];
    let new_lock = Some(b"changed\n".to_vec());
    assert_eq!(
        diverged_files(&manifest, &now, &new_lock),
        vec!["Cargo.lock".to_string(), "src/0.rs".to_string(), "src/a.rs".to_string(), "src/b.rs".to_string()],
    );
}

#[test]
fn later_file_with_the_same_key_replaces_earlier() {
    let files = vec![file("src/a.rs", "one\n"), file("src/a.rs", "two\n")];
    let manifest = fingerprint_workspace(&files, &None, "tc", 0);
    assert_eq!(manifest.file_hashes.len(), 1);
    assert_eq!(manifest.file_hashes[0].1, fnv1a_64_hex(b"two\n"));
}

#[test]
fn distinct_content_hashes_differ() {
    assert_ne!(fnv1a_64_hex(b"fn a() {}"), fnv1a_64_hex(b"fn b() {}"));
    assert_eq!(fnv1a_64_hex(b"same"), fnv1a_64_hex(b"same"));
    assert_eq!(fnv1a_64_hex(b"").len(), 16);
}

#[test]
fn fnv1a_hex_of_known_inputs() {
    assert_eq!(fnv1a_64_hex(b""), "cbf29ce484222325");
    assert_eq!(fnv1a_64_hex(b"a"), "af63dc4c8601ec8c");
}

#[test]
fn rfc3339_conversion_matches_known_epochs() {
    assert_eq!(unix_secs_to_rfc3339(0), "1970-01-01T00:00:00Z");
    assert_eq!(unix_secs_to_rfc3339(1_609_459_200), "2021-01-01T00:00:00Z");
    assert_eq!(unix_secs_to_rfc3339(1_583_020_800), "2020-03-01T00:00:00Z");
}

#[test]
fn rfc3339_before_the_epoch_and_far_away() {
    assert_eq!(unix_secs_to_rfc3339(-1), "1969-12-31T23:59:59Z");
    assert_eq!(unix_secs_to_rfc3339(951_782_400), "2000-02-29T00:00:00Z");
    assert_eq!(unix_secs_to_rfc3339(4_107_542_399), "2100-02-28T23:59:59Z");
    assert_eq!(unix_secs_to_rfc3339(-62_135_596_800), "0001-01-01T00:00:00Z");
    assert_eq!(unix_secs_to_rfc3339(-62_167_219_200), "0000-01-01T00:00:00Z");
    assert_eq!(unix_secs_to_rfc3339(-62_167_219_201), "-001-12-31T23:59:59Z");
    assert_eq!(unix_secs_to_rfc3339(253_402_300_800), "10000-01-01T00:00:00Z");
}
