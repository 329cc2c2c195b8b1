use base64::Engine as _;
use friend_link::drift::{
    apply_selected_items, build_friend_link_drift_preview, drift_status, PeerStateSnapshot,
};
use friend_link::frame::{
    admit_hello, endpoint_for_port, admit_frame, sign_frame, verify_frame, FrameError, NonceWindow,
    SignedFrame,
};
use friend_link::invite::{build_invite, parse_invite};
use friend_link::paths::{
    default_allowlist, describe_non_editable_reason, infer_file_kind, lock_entry_paths,
    path_is_excluded, path_matches_allowlist, safe_rel_path,
};
use friend_link::reconcile::{
    apply_resolutions, classify, conflict_from_lock, derive_status, merge_rows,
    verify_bytes_against_entry_hashes, ConflictResolutionPayload, DeclaredHash, KeyedRow,
    MergeDecision,
};
use friend_link::frame::PeerSummary;
use friend_link::invite::InvitePayload;
use friend_link::session::{
    ensure_trusted_peer_ids_initialized, normalize_allowlist, normalize_trusted_peer_ids,
    plan_join, sanitize_peer_alias, to_status, FriendLinkSessionRecord, FriendPeerRecord,
};
use friend_link::state::{
    build_sync_state, lock_entry_hash, lock_key_for, normalize_hash_value, normalized_content_type,
    normalized_worlds, CanonicalLockEntry, ConfigFileState, SyncState,
};
use friend_link::{normalize_max_auto_changes, MAX_PEERS, PROTOCOL_VERSION};

fn sample_session() -> FriendLinkSessionRecord {
    FriendLinkSessionRecord {
        instance_id: "inst_1".to_string(),
        group_id: "group_1".to_string(),
        local_peer_id: "peer_1".to_string(),
        display_name: "Host".to_string(),
        shared_secret_b64: base64::engine::general_purpose::STANDARD.encode([7u8; 32]),
        protocol_version: PROTOCOL_VERSION,
        listener_port: 45001,
        listener_endpoint: Some("127.0.0.1:45001".to_string()),
        peers: vec![],
        allowlist: default_allowlist(),
        last_peer_sync_at: vec![],
        last_good_snapshot: None,
        pending_conflicts: vec![],
        cached_peer_state: vec![],
        bootstrap_host_peer_id: None,
        trusted_peer_ids: vec![],
        trusted_peer_ids_initialized: false,
        peer_aliases: vec![],
        max_auto_changes: 25,
        sync_mods: true,
        sync_resourcepacks: false,
        sync_shaderpacks: true,
        sync_datapacks: true,
    }
}

fn peer(id: &str, endpoint: &str) -> FriendPeerRecord {
    FriendPeerRecord {
        peer_id: id.to_string(),
        display_name: id.to_uppercase(),
        endpoint: endpoint.to_string(),
        added_at: "now".to_string(),
        last_seen_at: None,
        online: true,
        last_state_hash: None,
    }
}

fn entry(project: &str, content_type: &str) -> CanonicalLockEntry {
    CanonicalLockEntry {
        source: "modrinth".to_string(),
        project_id: project.to_string(),
        version_id: "v1".to_string(),
        name: project.to_uppercase(),
        version_number: "1.0.0".to_string(),
        filename: format!("{project}.jar"),
        content_type: content_type.to_string(),
        target_scope: "instance".to_string(),
        target_worlds: vec![],
        enabled: true,
        hashes: vec![],
    }
}

#[test]
fn invite_roundtrip() {
    let session = sample_session();
    let now: i64 = 1_700_000_000_000;
    let invite = build_invite(&session, "127.0.0.1:0", now);
    let payload = parse_invite(&invite.invite_code, now).expect("parse invite");
    assert_eq!(payload.group_id, session.group_id);
    assert_eq!(payload.bootstrap_peer_endpoint, "127.0.0.1:45001");
    assert_eq!(payload.protocol_version, PROTOCOL_VERSION);
}

#[test]
fn invite_expired_token_fails() {
    let session = sample_session();
    let now: i64 = 1_700_000_000_000;
    let invite = build_invite(&session, "127.0.0.1:0", now);
    let too_late = now + 86_400_000 + 1;
    assert!(parse_invite(&invite.invite_code, too_late).is_err());
}

#[test]
fn invite_garbage_fails() {
    assert!(parse_invite("!!!not base64!!!", 0).is_err());
}

#[test]
fn allowlist_excludes_disallowed_prefixes() {
    let normalized = normalize_allowlist(&vec![
        "mods/**/*.jar".to_string(),
        "saves/**".to_string(),
        "config/**/*.json".to_string(),
    ]);
    assert!(normalized.iter().any(|v| v == "options.txt"));
    assert!(normalized.iter().any(|v| v == "config/**/*.json"));
    assert!(!normalized.iter().any(|v| v.starts_with("mods/")));
    assert!(!normalized.iter().any(|v| v.starts_with("saves/")));
}

#[test]
fn allowlist_empty_input_gets_defaults() {
    let normalized = normalize_allowlist(&vec![]);
    assert!(normalized.iter().any(|v| v == "options.txt"));
    assert!(normalized.iter().any(|v| v == "config/**/*.toml"));
}

#[test]
fn lock_conflict_builds_expected_fields() {
    let mine = CanonicalLockEntry {
        source: "modrinth".to_string(),
        project_id: "abc".to_string(),
        version_id: "v1".to_string(),
        name: "ABC".to_string(),
        version_number: "1.0.0".to_string(),
        filename: "abc.jar".to_string(),
        content_type: "mods".to_string(),
        target_scope: "instance".to_string(),
        target_worlds: vec![],
        enabled: true,
        hashes: vec![],
    };
    let mut theirs = friend_link::reconcile::duplicate_entry(&mine);
    theirs.version_id = "v2".to_string();
    theirs.version_number = "2.0.0".to_string();
    let mine_hash = lock_entry_hash(&mine);
    let theirs_hash = lock_entry_hash(&theirs);
    let conflict = conflict_from_lock(
        "lock::modrinth::mods::abc",
        "peer_2",
        Some(&mine),
        &theirs,
        Some(mine_hash),
        theirs_hash,
    );
    assert_eq!(conflict.kind, "lock_entry");
    assert_eq!(conflict.peer_id, "peer_2");
    assert_ne!(conflict.mine_hash, conflict.theirs_hash);
}

#[test]
fn lock_entry_hash_is_stable_across_hashmap_order() {
    let hashes_a = vec![
        ("sha512".to_string(), "AA".to_string()),
        ("sha1".to_string(), "bb".to_string()),
    ];
    let hashes_b = vec![
        ("sha1".to_string(), "BB".to_string()),
        ("sha512".to_string(), "aa".to_string()),
    ];
    let mut base = entry("abc", "mods");
    base.hashes = hashes_a;
    let mut other = friend_link::reconcile::duplicate_entry(&base);
    other.hashes = hashes_b;
    assert_eq!(lock_entry_hash(&base), lock_entry_hash(&other));
}

#[test]
fn lock_entry_hash_ignores_world_order_and_digest_noise() {
    let mut a = entry("dp", "datapacks");
    a.target_scope = "world".to_string();
    a.target_worlds = vec!["w2".to_string(), "w1".to_string(), "w1".to_string()];
    a.hashes = vec![("SHA256 ".to_string(), " AB cd ".to_string())];
    let mut b = friend_link::reconcile::duplicate_entry(&a);
    b.target_worlds = vec!["w1".to_string(), "w2".to_string()];
    b.hashes = vec![
        ("sha256".to_string(), "abcd".to_string()),
        ("sha256".to_string(), "abcd".to_string()),
    ];
    assert_eq!(lock_entry_hash(&a), lock_entry_hash(&b));
}

#[test]
fn state_hash_deterministic_for_equivalent_states() {
    let mut e1 = entry("abc", "mods");
    e1.hashes = vec![
        ("sha512".to_string(), "AA".to_string()),
        ("sha256".to_string(), "bb".to_string()),
    ];
    let mut e2 = friend_link::reconcile::duplicate_entry(&e1);
    e2.hashes = vec![
        ("sha256".to_string(), "BB".to_string()),
        ("sha512".to_string(), "aa".to_string()),
    ];
    let cfg = ConfigFileState {
        path: "options.txt".to_string(),
        modified_at: 5,
        hash: "h1".to_string(),
        content: "a:b".to_string(),
    };
    let cfg2 = ConfigFileState {
        path: "options.txt".to_string(),
        modified_at: 99,
        hash: "h1".to_string(),
        content: "a:b".to_string(),
    };
    let s1 = build_sync_state(vec![e1], vec![cfg]);
    let s2 = build_sync_state(vec![e2], vec![cfg2]);
    assert_eq!(s1.state_hash, s2.state_hash);
    assert_eq!(s1.state_hash.len(), 64);
}

#[test]
fn drift_preview_honors_content_type_sync_toggles() {
    let mut session = sample_session();
    session.sync_mods = true;
    session.sync_resourcepacks = false;
    session.peers = vec![peer("peer_2", "127.0.0.1:2")];
    session.trusted_peer_ids = vec!["peer_2".to_string()];
    session.trusted_peer_ids_initialized = true;

    let local_state = SyncState {
        state_hash: "local".to_string(),
        lock_entries: vec![],
        config_files: vec![],
    };
    let mut tex = entry("tex-a", "texturepacks");
    tex.filename = "tex-a.zip".to_string();
    tex.name = "Texture A".to_string();
    let mut mod_a = entry("mod-a", "mods");
    mod_a.name = "Mod A".to_string();
    mod_a.filename = "mod-a.jar".to_string();
    let remote_state = SyncState {
        state_hash: "remote".to_string(),
        lock_entries: vec![mod_a, tex],
        config_files: vec![],
    };
    let preview = build_friend_link_drift_preview(
        "inst_1",
        &session,
        &local_state,
        &vec![PeerStateSnapshot {
            peer_id: "peer_2".to_string(),
            display_name: "Peer".to_string(),
            state: remote_state,
        }],
        1,
    );
    assert_eq!(preview.total_changes, 1);
    assert_eq!(preview.added, 1);
    assert!(preview.items.iter().all(|item| item.key.contains("::mods::")));
}

#[test]
fn trusted_peers_do_not_auto_fill_without_init_flag() {
    let mut session = sample_session();
    session.peers = vec![peer("peer_a", "127.0.0.1:1"), peer("peer_b", "127.0.0.1:2")];
    let trusted = normalize_trusted_peer_ids(&session, &vec![]);
    assert!(trusted.is_empty());
}

#[test]
fn trusted_peers_initialize_to_all_once_for_legacy_sessions() {
    let mut session = sample_session();
    session.peers = vec![peer("peer_a", "127.0.0.1:1"), peer("peer_b", "127.0.0.1:2")];
    ensure_trusted_peer_ids_initialized(&mut session);
    assert_eq!(session.trusted_peer_ids.len(), 2);
    assert!(session.trusted_peer_ids.contains(&"peer_a".to_string()));
    assert!(session.trusted_peer_ids.contains(&"peer_b".to_string()));
    assert!(session.trusted_peer_ids_initialized);
}

#[test]
fn trusted_peers_drop_unknown_ids() {
    let mut session = sample_session();
    session.peers = vec![peer("peer_a", "127.0.0.1:1")];
    let trusted = normalize_trusted_peer_ids(
        &session,
        &vec![" peer_a ".to_string(), "ghost".to_string(), "peer_a".to_string()],
    );
    assert_eq!(trusted, vec!["peer_a".to_string()]);
}

#[test]
fn max_auto_changes_clamps_into_range() {
    assert_eq!(normalize_max_auto_changes(None), 25);
    assert_eq!(normalize_max_auto_changes(Some(0)), 1);
    assert_eq!(normalize_max_auto_changes(Some(9999)), 500);
    assert_eq!(normalize_max_auto_changes(Some(42)), 42);
}

#[test]
fn frame_sign_then_verify_round_trip() {
    let secret = base64::engine::general_purpose::STANDARD.encode([9u8; 32]);
    let mut frame = SignedFrame {
        group_id: "group_1".to_string(),
        from_peer_id: "peer_1".to_string(),
        timestamp_ms: 1_700_000_000_000,
        nonce: "n-1".to_string(),
        payload_type: "hello".to_string(),
        payload: "{}".to_string(),
        signature: String::new(),
    };
    sign_frame(&secret, &mut frame).expect("sign");
    assert!(verify_frame(&secret, &frame, frame.timestamp_ms).is_ok());

    let mut tampered_sig = SignedFrame {
        signature: format!("{}A", frame.signature),
        group_id: frame.group_id.clone(),
        from_peer_id: frame.from_peer_id.clone(),
        timestamp_ms: frame.timestamp_ms,
        nonce: frame.nonce.clone(),
        payload_type: frame.payload_type.clone(),
        payload: frame.payload.clone(),
    };
    assert!(verify_frame(&secret, &tampered_sig, frame.timestamp_ms).is_err());
    tampered_sig.signature = frame.signature.clone();
    tampered_sig.payload = "{\"x\":1}".to_string();
    assert!(verify_frame(&secret, &tampered_sig, frame.timestamp_ms).is_err());
    assert!(verify_frame(&secret, &frame, frame.timestamp_ms + 120_001).is_err());
    assert!(verify_frame(&secret, &frame, frame.timestamp_ms + 119_999).is_ok());
}

#[test]
fn replayed_nonce_is_rejected() {
    let secret = base64::engine::general_purpose::STANDARD.encode([9u8; 32]);
    let mut frame = SignedFrame {
        group_id: "group_1".to_string(),
        from_peer_id: "peer_2".to_string(),
        timestamp_ms: 1_700_000_000_000,
        nonce: "nonce-once".to_string(),
        payload_type: "hello".to_string(),
        payload: "{}".to_string(),
        signature: String::new(),
    };
    sign_frame(&secret, &mut frame).expect("sign");
    let mut window = NonceWindow::new();
    assert!(admit_frame("group_1", &secret, &frame, frame.timestamp_ms, &mut window).is_ok());
    let second = admit_frame("group_1", &secret, &frame, frame.timestamp_ms, &mut window);
    assert!(matches!(second, Err(FrameError::ReplayedNonce)));
}

#[test]
fn admit_frame_rejects_group_mismatch() {
    let secret = base64::engine::general_purpose::STANDARD.encode([9u8; 32]);
    let mut frame = SignedFrame {
        group_id: "group_other".to_string(),
        from_peer_id: "peer_2".to_string(),
        timestamp_ms: 0,
        nonce: "n".to_string(),
        payload_type: "hello".to_string(),
        payload: "{}".to_string(),
        signature: String::new(),
    };
    sign_frame(&secret, &mut frame).expect("sign");
    let mut window = NonceWindow::new();
    let r = admit_frame("group_1", &secret, &frame, 0, &mut window);
    assert!(matches!(r, Err(FrameError::GroupMismatch)));
}

#[test]
fn group_full_rejects_ninth_peer() {
    let mut session = sample_session();
    for i in 0..(MAX_PEERS - 1) {
        let r = admit_hello(
            &mut session,
            format!("peer_{}", i + 2),
            "P".to_string(),
            "127.0.0.1:9".to_string(),
            "now".to_string(),
        );
        assert!(r.is_ok(), "peer {} should be admitted", i + 2);
    }
    assert_eq!(session.peers.len(), MAX_PEERS - 1);
    let ninth = admit_hello(
        &mut session,
        "peer_9".to_string(),
        "P".to_string(),
        "127.0.0.1:9".to_string(),
        "now".to_string(),
    );
    assert!(ninth.is_err());
    let refresh = admit_hello(
        &mut session,
        "peer_2".to_string(),
        "Renamed".to_string(),
        "127.0.0.1:10".to_string(),
        "later".to_string(),
    );
    assert!(refresh.is_ok());
    assert_eq!(session.peers.len(), MAX_PEERS - 1);
}

#[test]
fn classify_follows_three_way_merge_rules() {
    let base = "b".to_string();
    let local_same = "b".to_string();
    let local_diff = "l".to_string();
    let remote = "r".to_string();
    assert!(matches!(
        classify(Some(&base), Some(&remote), &remote, false),
        MergeDecision::Skip
    ));
    assert!(matches!(
        classify(Some(&base), Some(&local_same), &remote, false),
        MergeDecision::Adopt
    ));
    assert!(matches!(
        classify(Some(&base), Some(&local_diff), &remote, false),
        MergeDecision::Conflict
    ));
    assert!(matches!(
        classify(None, None, &remote, false),
        MergeDecision::Adopt
    ));
    assert!(matches!(
        classify(Some(&base), Some(&local_diff), &remote, true),
        MergeDecision::SeedBaseline
    ));
    // Local diverged while remote still equals the baseline: nothing to do.
    assert!(matches!(
        classify(Some(&base), Some(&local_diff), &base, false),
        MergeDecision::Skip
    ));
}

#[test]
fn status_table_matches_reconcile_ranking() {
    assert_eq!(derive_status(1, 0, 0, false, true, true, 0), "conflicted");
    assert_eq!(derive_status(0, 2, 0, true, true, true, 0), "error");
    assert_eq!(derive_status(0, 2, 0, false, true, true, 0), "degraded_missing_files");
    assert_eq!(derive_status(0, 0, 1, false, true, true, 0), "degraded_offline_last_good");
    assert_eq!(derive_status(0, 0, 1, true, true, false, 0), "blocked_offline_stale");
    assert_eq!(derive_status(0, 0, 1, false, true, false, 0), "error");
    assert_eq!(derive_status(0, 0, 0, true, true, true, 3), "blocked_untrusted");
    assert_eq!(derive_status(0, 0, 0, false, false, false, 0), "synced");
}

#[test]
fn drift_status_table() {
    assert_eq!(drift_status(1, 2, 1, 0), "conflicted");
    assert_eq!(drift_status(0, 0, 0, 0), "no_peers");
    assert_eq!(drift_status(0, 2, 0, 0), "offline");
    assert_eq!(drift_status(0, 2, 1, 0), "in_sync");
    assert_eq!(drift_status(0, 2, 1, 3), "unsynced");
}

#[test]
fn safe_rel_path_guards_traversal() {
    assert_eq!(safe_rel_path("/config/a.json").unwrap(), "config/a.json");
    assert_eq!(safe_rel_path("config\\sub\\a.toml").unwrap(), "config/sub/a.toml");
    assert!(safe_rel_path("../secrets").is_err());
    assert!(safe_rel_path("config/../x").is_err());
    assert!(safe_rel_path("   ").is_err());
}

#[test]
fn allowlist_matching_uses_globs_and_exclusions() {
    let allow = vec!["config/**/*.json".to_string()];
    assert!(path_is_excluded("mods/a.jar"));
    assert_eq!(path_matches_allowlist("mods/a.jar", &allow).unwrap(), false);
    assert_eq!(path_matches_allowlist("OPTIONS.TXT", &allow).unwrap(), true);
    assert_eq!(path_matches_allowlist("config/x/y.json", &allow).unwrap(), true);
    assert_eq!(path_matches_allowlist("config/x/y.toml", &allow).unwrap(), false);
    assert!(path_matches_allowlist("config/a.json", &vec!["[".to_string()]).is_err());
}

#[test]
fn lock_entry_paths_follow_layout() {
    let mut mods = entry("abc", "mods");
    let paths = lock_entry_paths("/data/instances", "inst", &mods);
    assert_eq!(paths, vec!["/data/instances/inst/mods/abc.jar".to_string()]);
    mods.enabled = false;
    let disabled = lock_entry_paths("/data/instances", "inst", &mods);
    assert_eq!(disabled, vec!["/data/instances/inst/mods/abc.jar.disabled".to_string()]);
    let mut dp = entry("dp", "datapacks");
    dp.filename = "dp.zip".to_string();
    dp.target_worlds = vec!["w1".to_string(), " ".to_string(), "w2".to_string()];
    let dps = lock_entry_paths("/data/instances", "inst", &dp);
    assert_eq!(
        dps,
        vec![
            "/data/instances/inst/saves/w1/datapacks/dp.zip".to_string(),
            "/data/instances/inst/saves/w2/datapacks/dp.zip".to_string(),
        ]
    );
}

#[test]
fn binary_checks_prefer_declared_digests() {
    let bytes = b"hello".to_vec();
    let good = friend_link::trusted::sha256_hex(&bytes);
    let ok = verify_bytes_against_entry_hashes(&bytes, &DeclaredHash::Sha256(good));
    assert!(ok.is_ok());
    let bad = verify_bytes_against_entry_hashes(&bytes, &DeclaredHash::Sha256("00".repeat(32)));
    assert!(bad.is_err());
    assert!(verify_bytes_against_entry_hashes(&bytes, &DeclaredHash::Unverified).is_ok());
}

#[test]
fn digest_wrappers_match_known_values() {
    assert_eq!(
        friend_link::trusted::sha256_hex(b"abc"),
        "ba7816bf8f01cfea414140de5dae2223b00361a396177a9cb410ff61f20015ad"
    );
    assert_eq!(friend_link::trusted::sha256_hex(b"").len(), 64);
    assert_eq!(friend_link::trusted::sha512_hex(b"abc").len(), 128);
}

#[test]
fn base64_agrees_with_reference_implementation() {
    let samples: Vec<Vec<u8>> = vec![
        vec![],
        vec![0],
        vec![255, 254],
        vec![1, 2, 3],
        vec![250, 251, 252, 253],
        (0u8..=60).collect(),
    ];
    for s in samples {
        let std_mine = friend_link::b64::b64std_encode(&s);
        let std_ref = base64::engine::general_purpose::STANDARD.encode(&s);
        assert_eq!(std_mine, std_ref);
        let url_mine = friend_link::b64::b64url_encode(&s);
        let url_ref = base64::engine::general_purpose::URL_SAFE_NO_PAD.encode(&s);
        assert_eq!(url_mine, url_ref);
        assert_eq!(friend_link::b64::b64std_decode(&std_mine).unwrap(), s);
        assert_eq!(friend_link::b64::b64url_decode(&url_mine).unwrap(), s);
    }
    assert!(friend_link::b64::b64std_decode("a").is_none());
    assert!(friend_link::b64::b64url_decode("!!").is_none());
}

#[test]
fn invalid_utf8_config_read_fails_with_reason() {
    let bad = vec![0xffu8, 0xfe, 0x00];
    assert!(friend_link::trusted::utf8_to_string(bad).is_err());
    let sample = vec![0u8, 1, 2];
    let reason = describe_non_editable_reason("config/blob.bin", &sample);
    assert_eq!(reason, Some("Binary file cannot be edited here.".to_string()));
    assert_eq!(describe_non_editable_reason("config/a.json", &sample), None);
    assert_eq!(infer_file_kind("config/A.JSON"), "json");
    assert_eq!(infer_file_kind("options.txt"), "text");
    assert_eq!(infer_file_kind("weird.bin"), "file");
}

#[test]
fn normalizers_canonicalize_fields() {
    assert_eq!(normalized_content_type(" TextUrePack "), "resourcepacks");
    assert_eq!(normalized_content_type("unknown"), "mods");
    assert_eq!(normalize_hash_value("  A B\tc1 "), "abc1");
    let worlds = normalized_worlds(&vec!["b".to_string(), "a".to_string(), "b".to_string()]);
    assert_eq!(worlds, vec!["a".to_string(), "b".to_string()]);
    let e = entry("AbC", "Mods");
    assert_eq!(lock_key_for(&e), "lock::modrinth::mods::abc");
    assert_eq!(endpoint_for_port("10.0.0.5", 8080), "10.0.0.5:8080");
    assert_eq!(sanitize_peer_alias(Some("  ".to_string())), None);
    assert_eq!(sanitize_peer_alias(Some(" Zed ".to_string())), Some("Zed".to_string()));
}

#[test]
fn status_summary_reports_conflict_state() {
    let mut session = sample_session();
    let status = to_status(Some(&session), "inst_1");
    assert!(status.linked);
    assert_eq!(status.status, "synced");
    session.pending_conflicts.push(friend_link::session::FriendSyncConflictRecord {
        id: "conf_x".to_string(),
        kind: "lock_entry".to_string(),
        key: "k".to_string(),
        peer_id: "peer_2".to_string(),
        mine_hash: "a".to_string(),
        theirs_hash: "b".to_string(),
        mine_preview: None,
        theirs_preview: None,
        mine_value: None,
        theirs_value: None,
        created_at: "now".to_string(),
    });
    let conflicted = to_status(Some(&session), "inst_1");
    assert_eq!(conflicted.status, "conflicted");
    assert_eq!(conflicted.pending_conflicts_count, 1);
    let unlinked = to_status(None, "other");
    assert!(!unlinked.linked);
    assert_eq!(unlinked.status, "unlinked");
}

#[test]
fn merge_decides_nothing_when_peers_agree() {
    let rows = |tag: &str| {
        vec![
            KeyedRow { key: "lock::a".to_string(), hash: format!("h1{tag}"), src: 0 },
            KeyedRow { key: "lock::b".to_string(), hash: format!("h2{tag}"), src: 1 },
        ]
    };
    let local = rows("");
    let remote = rows("");
    let changes = merge_rows(&local, &remote, &vec![], false);
    assert!(changes.is_empty());
    let second = merge_rows(&local, &remote, &vec![], false);
    assert!(second.is_empty());
}

#[test]
fn synced_reconcile_records_fresh_baseline() {
    let mut session = sample_session();
    let state = friend_link::state::build_sync_state(vec![entry("abc", "mods")], vec![]);
    friend_link::reconcile::store_last_good(&mut session, &state, "t1".to_string());
    let snap = session.last_good_snapshot.as_ref().expect("baseline stored");
    assert_eq!(snap.state_hash, state.state_hash);
    assert_eq!(snap.updated_at, "t1");
}

#[test]
fn resolutions_take_theirs_upserts_and_clears_pending() {
    let mine = entry("alpha", "mods");
    let mut theirs = entry("alpha", "mods");
    theirs.version_id = "v2".to_string();
    theirs.version_number = "2.0.0".to_string();
    let conflict = conflict_from_lock(
        lock_key_for(&mine).as_str(),
        "peer_2",
        Some(&mine),
        &theirs,
        Some(lock_entry_hash(&mine)),
        lock_entry_hash(&theirs),
    );
    assert_eq!(conflict.key, lock_key_for(&mine));
    let mut lock = vec![entry("alpha", "mods")];
    let mut configs: Vec<ConfigFileState> = vec![];
    let payload = ConflictResolutionPayload {
        keep_all_mine: false,
        take_all_theirs: true,
        items: vec![],
    };
    let remaining = apply_resolutions(&vec![conflict], &payload, &mut lock, &mut configs);
    assert!(remaining.is_empty());
    assert_eq!(lock.len(), 1);
    assert_eq!(lock[0].version_id, "v2");
    assert_eq!(lock[0].version_number, "2.0.0");
}

#[test]
fn resolutions_default_keeps_conflict_pending() {
    let mine = entry("alpha", "mods");
    let mut theirs = entry("alpha", "mods");
    theirs.version_id = "v2".to_string();
    let conflict = conflict_from_lock(
        lock_key_for(&mine).as_str(),
        "peer_2",
        Some(&mine),
        &theirs,
        Some(lock_entry_hash(&mine)),
        lock_entry_hash(&theirs),
    );
    let conflict_id = conflict.id.clone();
    let mut lock = vec![entry("alpha", "mods")];
    let mut configs: Vec<ConfigFileState> = vec![];
    let payload = ConflictResolutionPayload {
        keep_all_mine: false,
        take_all_theirs: false,
        items: vec![],
    };
    let remaining = apply_resolutions(&vec![conflict], &payload, &mut lock, &mut configs);
    assert_eq!(remaining.len(), 1);
    assert_eq!(remaining[0].id, conflict_id);
    assert_eq!(lock[0].version_id, "v1");
}

fn sample_invite_payload() -> InvitePayload {
    InvitePayload {
        group_id: "group_1".to_string(),
        bootstrap_peer_endpoint: "127.0.0.1:45001".to_string(),
        shared_secret: base64::engine::general_purpose::STANDARD.encode([7u8; 32]),
        expires_at: "2099-01-01T00:00:00Z".to_string(),
        protocol_version: PROTOCOL_VERSION,
        host_peer_id: "peer_host".to_string(),
    }
}

fn ack(peer_id: &str) -> PeerSummary {
    PeerSummary {
        peer_id: peer_id.to_string(),
        display_name: peer_id.to_uppercase(),
        endpoint: "127.0.0.1:45002".to_string(),
        online: true,
    }
}

#[test]
fn plan_join_merges_acknowledged_peers() {
    let invite = sample_invite_payload();
    let acks = vec![ack("peer_host"), ack("peer_b"), ack("peer_host"), ack("peer_self")];
    let session = plan_join(
        &invite,
        &"inst_9".to_string(),
        &"peer_self".to_string(),
        Some("  Ada  ".to_string()),
        &acks,
    )
    .expect("join");
    assert_eq!(session.group_id, "group_1");
    assert_eq!(session.shared_secret_b64, invite.shared_secret);
    assert_eq!(session.bootstrap_host_peer_id.as_deref(), Some("peer_host"));
    assert_eq!(session.display_name, "Ada");
    assert_eq!(session.peers.len(), 2);
    assert!(session.peers.iter().any(|p| p.peer_id == "peer_host"));
    assert!(session.peers.iter().any(|p| p.peer_id == "peer_b"));
    assert_eq!(session.max_auto_changes, 25);
}

#[test]
fn plan_join_refuses_a_full_group() {
    let invite = sample_invite_payload();
    let acks: Vec<PeerSummary> = (0..8).map(|i| ack(&format!("peer_{i}"))).collect();
    let joined = plan_join(
        &invite,
        &"inst_9".to_string(),
        &"peer_self".to_string(),
        None,
        &acks,
    );
    match joined {
        Ok(_) => panic!("a full group must be refused"),
        Err(err) => assert_eq!(err, "Linked group is full. Maximum group size is 8 peers."),
    }
}

#[test]
fn selected_items_apply_only_trusted_requested_keys() {
    let mut session = sample_session();
    session.peers = vec![
        peer("peer_2", "127.0.0.1:45002"),
        peer("peer_3", "127.0.0.1:45003"),
    ];
    session.trusted_peer_ids = vec!["peer_2".to_string()];
    session.trusted_peer_ids_initialized = true;
    let remote_entry = entry("beta", "mods");
    let untrusted_entry = entry("gamma", "mods");
    let peers = vec![
        PeerStateSnapshot {
            peer_id: "peer_2".to_string(),
            display_name: "PEER_2".to_string(),
            state: build_sync_state(vec![remote_entry], vec![]),
        },
        PeerStateSnapshot {
            peer_id: "peer_3".to_string(),
            display_name: "PEER_3".to_string(),
            state: build_sync_state(vec![untrusted_entry], vec![]),
        },
    ];
    let local = build_sync_state(vec![], vec![]);
    let preview = build_friend_link_drift_preview("inst_1", &session, &local, &peers, 2);
    assert_eq!(preview.added, 2);
    assert_eq!(preview.total_changes, 2);
    assert!(preview.has_untrusted_changes);
    let mut lock: Vec<CanonicalLockEntry> = vec![];
    let mut configs: Vec<ConfigFileState> = vec![];
    let outcome = apply_selected_items(&preview.items, &vec![], &peers, &mut lock, &mut configs);
    assert_eq!(lock.len(), 1);
    assert_eq!(lock[0].project_id, "beta");
    assert_eq!(outcome.skipped_untrusted, 1);
    assert!(!outcome.fully_covered);
}
