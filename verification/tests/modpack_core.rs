use friend_link::modpack::{
    build_lock_snapshot, detect_drift, diff_entries, ensure_default_profiles, entry_key,
    entry_key_for, make_base_spec, normalize_link_mode, parse_release_parts, reduce_layers,
    LockEntry, Lockfile,
};
use friend_link::modpack_types::{EntriesDelta, Layer, ModEntry, ModpackSpec};

fn entry(provider: &str, project_id: &str) -> ModEntry {
    ModEntry {
        provider: provider.to_string(),
        project_id: project_id.to_string(),
        slug: None,
        content_type: "mods".to_string(),
        required: true,
        pin: None,
        channel_policy: "stable".to_string(),
        fallback_policy: "inherit".to_string(),
        replacement_group: None,
        notes: None,
        disabled_by_default: false,
        optional: false,
        target_scope: "instance".to_string(),
        target_worlds: vec![],
        local_file_name: None,
        local_file_path: None,
        local_sha512: None,
        local_fingerprints: vec![],
    }
}

fn layer(id: &str, name: &str, adds: Vec<ModEntry>) -> Layer {
    Layer {
        id: id.to_string(),
        name: name.to_string(),
        source: None,
        is_frozen: false,
        entries_delta: EntriesDelta {
            add: adds,
            remove: vec![],
            override_entries: vec![],
        },
    }
}

fn lock_entry(project: &str, version_id: &str, version_number: &str) -> LockEntry {
    LockEntry {
        source: "modrinth".to_string(),
        project_id: project.to_string(),
        version_id: version_id.to_string(),
        name: project.to_uppercase(),
        version_number: version_number.to_string(),
        filename: format!("{project}.jar"),
        content_type: "mods".to_string(),
        target_scope: "instance".to_string(),
        target_worlds: vec![],
        pinned_version: None,
        enabled: true,
        hashes: vec![],
    }
}

#[test]
fn layer_reduce_detects_duplicates() {
    let mut spec: ModpackSpec =
        make_base_spec("modpack_1".to_string(), "A".to_string(), "now".to_string());
    spec.layers = vec![
        layer("l1", "Template", vec![entry("modrinth", "abc")]),
        layer("l2", "User", vec![entry("modrinth", "abc")]),
    ];
    let (_entries, conflicts, _warnings) = reduce_layers(&spec);
    assert!(!conflicts.is_empty());
}

#[test]
fn layer_reduce_applies_removes_and_overrides() {
    let mut spec = make_base_spec("modpack_2".to_string(), "B".to_string(), "now".to_string());
    let mut l1 = layer("l1", "Base", vec![entry("modrinth", "keep"), entry("modrinth", "drop")]);
    l1.entries_delta.remove = vec![];
    let mut l2 = layer("l2", "Edit", vec![]);
    l2.entries_delta.remove = vec![friend_link::modpack_types::EntryKey {
        provider: "modrinth".to_string(),
        project_id: "drop".to_string(),
        content_type: "mods".to_string(),
    }];
    let mut patched = entry("modrinth", "keep");
    patched.pin = Some("v9".to_string());
    l2.entries_delta.override_entries = vec![patched];
    spec.layers = vec![l1, l2];
    let (entries, conflicts, _warnings) = reduce_layers(&spec);
    assert_eq!(entries.len(), 1);
    assert_eq!(entries[0].project_id, "keep");
    assert_eq!(entries[0].pin, Some("v9".to_string()));
    assert!(conflicts.is_empty());
}

#[test]
fn diff_entries_reports_added_removed_overridden() {
    let current = vec![entry("modrinth", "a"), entry("modrinth", "b")];
    let mut next = vec![entry("modrinth", "b"), entry("modrinth", "c")];
    next[0].pin = Some("123".to_string());
    let (added, removed, overridden) = diff_entries(&current, &next);
    assert_eq!(added.len(), 1);
    assert_eq!(removed.len(), 1);
    assert_eq!(overridden.len(), 1);
}

#[test]
fn drift_detects_version_changes() {
    let lock = Lockfile {
        version: 2,
        entries: vec![lock_entry("abc", "v2", "2.0")],
    };
    let expected_lock = Lockfile {
        version: 2,
        entries: vec![lock_entry("abc", "v1", "1.0")],
    };
    let snapshot = build_lock_snapshot("inst", "plan", &expected_lock, None);
    let drift = detect_drift("inst", &lock, &snapshot);
    assert_eq!(drift.status, "drifted");
    assert_eq!(drift.version_changed.len(), 1);
}

#[test]
fn drift_in_sync_when_nothing_changed() {
    let lock = Lockfile {
        version: 2,
        entries: vec![lock_entry("abc", "v1", "1.0")],
    };
    let snapshot = build_lock_snapshot("inst", "plan", &lock, None);
    let drift = detect_drift("inst", &lock, &snapshot);
    assert_eq!(drift.status, "in_sync");
    assert!(drift.added.is_empty());
    assert!(drift.removed.is_empty());
    assert!(drift.version_changed.is_empty());
}

#[test]
fn entry_keys_are_normalized() {
    assert_eq!(entry_key(" Modrinth ", " ABC ", "Mod"), "modrinth:mods:abc");
    let e = entry("CurseForge", "XY");
    assert_eq!(entry_key_for(&e), "curseforge:mods:xy");
}

#[test]
fn base_spec_gets_standard_layers_and_profiles() {
    let spec = make_base_spec("id1".to_string(), "Name".to_string(), "t0".to_string());
    assert_eq!(spec.layers.len(), 3);
    assert_eq!(spec.layers[0].id, "layer_template");
    assert_eq!(spec.layers[1].id, "layer_user");
    assert_eq!(spec.layers[2].id, "layer_overrides");
    assert_eq!(spec.profiles.len(), 3);
    let mut spec2 = make_base_spec("id2".to_string(), "N".to_string(), "t0".to_string());
    spec2.profiles.truncate(1);
    ensure_default_profiles(&mut spec2);
    assert_eq!(spec2.profiles.len(), 1);
}

#[test]
fn link_mode_normalizes() {
    assert_eq!(normalize_link_mode(" One-Time "), "unlinked");
    assert_eq!(normalize_link_mode("unlinked"), "unlinked");
    assert_eq!(normalize_link_mode("anything"), "linked");
}

#[test]
fn release_parts_parse_leading_numbers() {
    assert_eq!(parse_release_parts("1.20.4"), Some((1, 20, 4)));
    assert_eq!(parse_release_parts("1.19"), Some((1, 19, 0)));
    assert_eq!(parse_release_parts("snapshot"), None);
    assert_eq!(parse_release_parts(""), None);
}
