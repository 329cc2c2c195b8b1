//! The reconciler's decision core: three-way classification of every key
//! against the last-good baseline, the merge over a peer's state, outcome
//! status derivation, baseline updates, conflict records and their
//! resolution, and binary verification rules.
use vstd::prelude::*;

use crate::session::{
    ConflictValue, FriendLastGoodSnapshot, FriendLinkSessionRecord, FriendManifestEntry,
    FriendSyncConflictRecord,
};
use crate::state::{entry_hash_matches, CanonicalLockEntry, ConfigFileState, SyncState};

verus! {

/// What the three-way merge decides for one key.
#[derive(PartialEq, Eq, Structural)]
pub enum MergeDecision {
    Skip,
    Adopt,
    SeedBaseline,
    Conflict,
}

/// The three-way classification of one key: adopt the remote value when the
/// local side never diverged from the baseline or has nothing; seed when
/// only bootstrapping allows taking remote changes; conflict when both
/// sides diverged; otherwise leave the key alone.
#[verifier::opaque]
pub open spec fn classify_spec(
    baseline: Option<Seq<char>>,
    local: Option<Seq<char>>,
    remote: Seq<char>,
    seed: bool,
) -> MergeDecision {
    if local == Option::Some(remote) {
        MergeDecision::Skip
    } else {
        let local_changed = match baseline {
            Option::Some(b) => local != Option::Some(b),
            Option::None => local is Some,
        };
        let remote_changed = match baseline {
            Option::Some(b) => b != remote,
            Option::None => true,
        };
        if !local_changed || local is None {
            MergeDecision::Adopt
        } else if remote_changed && seed {
            MergeDecision::SeedBaseline
        } else if remote_changed {
            MergeDecision::Conflict
        } else {
            MergeDecision::Skip
        }
    }
}

/// Classify one key given the baseline, local and remote hashes.
pub fn classify(
    baseline: Option<&String>,
    local: Option<&String>,
    remote: &String,
    seed: bool,
) -> (r: MergeDecision)
    ensures
        r == classify_spec(
            match baseline {
                Option::Some(b) => Option::Some(b@),
                Option::None => Option::None,
            },
            match local {
                Option::Some(l) => Option::Some(l@),
                Option::None => Option::None,
            },
            remote@,
            seed,
        ),
{
    proof {
        reveal(classify_spec);
    }
    let local_eq_remote = match local {
        Option::Some(l) => crate::text::str_eq(l, remote),
        Option::None => false,
    };
    if local_eq_remote {
        return MergeDecision::Skip;
    }
    let local_changed = match (baseline, local) {
        (Option::Some(b), Option::Some(l)) => !crate::text::str_eq(l, b),
        (Option::Some(_), Option::None) => true,
        (Option::None, Option::Some(_)) => true,
        (Option::None, Option::None) => false,
    };
    let remote_changed = match baseline {
        Option::Some(b) => !crate::text::str_eq(b, remote),
        Option::None => true,
    };
    let local_absent = match local {
        Option::Some(_) => false,
        Option::None => true,
    };
    if !local_changed || local_absent {
        MergeDecision::Adopt
    } else if remote_changed && seed {
        MergeDecision::SeedBaseline
    } else if remote_changed {
        MergeDecision::Conflict
    } else {
        MergeDecision::Skip
    }
}

/// A key that already agrees on both sides is always left alone, whatever
/// the baseline and the seeding flag say.
pub proof fn lemma_classify_agreement_skips(
    baseline: Option<Seq<char>>,
    h: Seq<char>,
    seed: bool,
)
    ensures
        classify_spec(baseline, Option::Some(h), h, seed) == MergeDecision::Skip,
{
    reveal(classify_spec);
}

/// One keyed row of a state map: the key, the canonical hash, and the index
/// of the row's record in its source list.
pub struct KeyedRow {
    pub key: String,
    pub hash: String,
    pub src: usize,
}

/// Look up the hash carried for a key.
pub fn row_lookup<'a>(rows: &'a Vec<KeyedRow>, key: &String) -> (r: Option<&'a KeyedRow>)
    ensures
        match r {
            Option::Some(row) => exists|i: int|
                0 <= i < rows@.len() && rows@[i] == *row && (#[trigger] rows@[i]).key@ == key@,
            Option::None => forall|i: int|
                0 <= i < rows@.len() ==> (#[trigger] rows@[i]).key@ != key@,
        },
{
    let mut i: usize = 0;
    while i < rows.len()
        invariant
            i <= rows@.len(),
            forall|m: int| 0 <= m < i ==> (#[trigger] rows@[m]).key@ != key@,
        decreases rows@.len() - i,
    {
        if crate::text::str_eq(&rows[i].key, key) {
            let row = &rows[i];
            proof {
                assert(rows@[i as int] == *row && rows@[i as int].key@ == key@);
            }
            return Option::Some(row);
        }
        i = i + 1;
    }
    Option::None
}

/// Look up a baseline hash by key.
pub fn baseline_lookup<'a>(baseline: &'a Vec<(String, String)>, key: &String) -> (r: Option<
    &'a String,
>)
    ensures
        match r {
            Option::Some(h) => exists|i: int|
                0 <= i < baseline@.len() && (#[trigger] baseline@[i]).0@ == key@ && baseline@[i].1@
                    == h@,
            Option::None => forall|i: int|
                0 <= i < baseline@.len() ==> (#[trigger] baseline@[i]).0@ != key@,
        },
{
    let mut i: usize = 0;
    while i < baseline.len()
        invariant
            i <= baseline@.len(),
            forall|m: int| 0 <= m < i ==> (#[trigger] baseline@[m]).0@ != key@,
        decreases baseline@.len() - i,
    {
        if crate::text::str_eq(&baseline[i].0, key) {
            let h = &baseline[i].1;
            proof {
                assert(baseline@[i as int].0@ == key@ && baseline@[i as int].1@ == h@);
            }
            return Option::Some(h);
        }
        i = i + 1;
    }
    Option::None
}

/// One decided change of the merge: which remote row to take and why.
pub struct MergeChange {
    pub key: String,
    pub remote_src: usize,
    pub decision: MergeDecision,
}

/// Whether local rows carry the same hash for a remote row's key.
pub open spec fn local_matches(local: Seq<KeyedRow>, key: Seq<char>, hash: Seq<char>) -> bool {
    exists|j: int|
        0 <= j < local.len() && (#[trigger] local[j]).key@ == key && local[j].hash@ == hash
}

/// The hash the local rows carry for a key, if any.
#[verifier::opaque]
pub open spec fn local_hash_at(local: Seq<KeyedRow>, key: Seq<char>) -> Option<Seq<char>> {
    if exists|j: int| 0 <= j < local.len() && (#[trigger] local[j]).key@ == key {
        let j = choose|j: int| 0 <= j < local.len() && (#[trigger] local[j]).key@ == key;
        Option::Some(local[j].hash@)
    } else {
        Option::None
    }
}

/// The baseline hash recorded for a key, if any.
#[verifier::opaque]
pub open spec fn baseline_view_at(baseline: Seq<(String, String)>, key: Seq<char>) -> Option<
    Seq<char>,
> {
    if exists|i: int| 0 <= i < baseline.len() && (#[trigger] baseline[i]).0@ == key {
        let w = choose|i: int| 0 <= i < baseline.len() && (#[trigger] baseline[i]).0@ == key;
        Option::Some(baseline[w].1@)
    } else {
        Option::None
    }
}

/// What the merge decides for one remote row: the three-way classification
/// of its key against the baseline and the local hash.
pub open spec fn remote_decision(
    local: Seq<KeyedRow>,
    baseline: Seq<(String, String)>,
    row: KeyedRow,
    seed: bool,
) -> MergeDecision {
    classify_spec(
        baseline_view_at(baseline, row.key@),
        local_hash_at(local, row.key@),
        row.hash@,
        seed,
    )
}

/// With unique keys, a found row is the spec lookup's answer.
proof fn lemma_local_hash_some(local: Seq<KeyedRow>, key: Seq<char>, hash: Seq<char>)
    requires
        forall|i: int, j: int|
            0 <= i < j < local.len() ==> (#[trigger] local[i]).key@ != (#[trigger] local[j]).key@,
        exists|j: int|
            0 <= j < local.len() && (#[trigger] local[j]).key@ == key && local[j].hash@ == hash,
    ensures
        local_hash_at(local, key) == Option::Some(hash),
{
    reveal(local_hash_at);
    let j = choose|j: int|
        0 <= j < local.len() && (#[trigger] local[j]).key@ == key && local[j].hash@ == hash;
    assert(exists|j2: int| 0 <= j2 < local.len() && (#[trigger] local[j2]).key@ == key) by {
        assert(local[j].key@ == key);
    }
    let j2 = choose|j2: int| 0 <= j2 < local.len() && (#[trigger] local[j2]).key@ == key;
    if j2 < j {
        assert(local[j2].key@ != local[j].key@);
    } else if j < j2 {
        assert(local[j].key@ != local[j2].key@);
    }
}

/// A key no row carries has no spec lookup answer.
proof fn lemma_local_hash_none(local: Seq<KeyedRow>, key: Seq<char>)
    requires
        forall|j: int| 0 <= j < local.len() ==> (#[trigger] local[j]).key@ != key,
    ensures
        local_hash_at(local, key) is None,
{
    reveal(local_hash_at);
    if exists|j2: int| 0 <= j2 < local.len() && (#[trigger] local[j2]).key@ == key {
        let j2 = choose|j2: int| 0 <= j2 < local.len() && (#[trigger] local[j2]).key@ == key;
        assert(false);
    }
}

/// With unique keys, a found baseline pair is the spec lookup's answer.
proof fn lemma_baseline_some(baseline: Seq<(String, String)>, key: Seq<char>, hash: Seq<char>)
    requires
        forall|i: int, j: int|
            0 <= i < j < baseline.len() ==> (#[trigger] baseline[i]).0@ != (
            #[trigger] baseline[j]).0@,
        exists|w: int|
            0 <= w < baseline.len() && (#[trigger] baseline[w]).0@ == key && baseline[w].1@
                == hash,
    ensures
        baseline_view_at(baseline, key) == Option::Some(hash),
{
    reveal(baseline_view_at);
    let w = choose|w: int|
        0 <= w < baseline.len() && (#[trigger] baseline[w]).0@ == key && baseline[w].1@ == hash;
    assert(exists|w2: int| 0 <= w2 < baseline.len() && (#[trigger] baseline[w2]).0@ == key) by {
        assert(baseline[w].0@ == key);
    }
    let w2 = choose|w2: int| 0 <= w2 < baseline.len() && (#[trigger] baseline[w2]).0@ == key;
    if w2 < w {
        assert(baseline[w2].0@ != baseline[w].0@);
    } else if w < w2 {
        assert(baseline[w].0@ != baseline[w2].0@);
    }
}

/// A key no baseline pair carries has no spec lookup answer.
proof fn lemma_baseline_none(baseline: Seq<(String, String)>, key: Seq<char>)
    requires
        forall|w: int| 0 <= w < baseline.len() ==> (#[trigger] baseline[w]).0@ != key,
    ensures
        baseline_view_at(baseline, key) is None,
{
    reveal(baseline_view_at);
    if exists|w2: int| 0 <= w2 < baseline.len() && (#[trigger] baseline[w2]).0@ == key {
        let w2 = choose|w2: int| 0 <= w2 < baseline.len() && (#[trigger] baseline[w2]).0@ == key;
        assert(false);
    }
}

/// Decide one remote row: look its key up locally and in the baseline and
/// classify three-way.
fn decide_row(
    local: &Vec<KeyedRow>,
    baseline: &Vec<(String, String)>,
    row: &KeyedRow,
    seed: bool,
) -> (r: MergeDecision)
    requires
        forall|i: int, j: int|
            0 <= i < j < local@.len() ==> (#[trigger] local@[i]).key@ != (
            #[trigger] local@[j]).key@,
        forall|i: int, j: int|
            0 <= i < j < baseline@.len() ==> (#[trigger] baseline@[i]).0@ != (
            #[trigger] baseline@[j]).0@,
    ensures
        r == remote_decision(local@, baseline@, *row, seed),
{
    let local_row = row_lookup(local, &row.key);
    let local_hash: Option<&String> = match local_row {
        Option::Some(lrow) => Option::Some(&lrow.hash),
        Option::None => Option::None,
    };
    let base = baseline_lookup(baseline, &row.key);
    proof {
        // The executable lookups agree with the deterministic spec lookups
        // because keys are unique on both sides.
        match local_row {
            Option::Some(lrow) => {
                lemma_local_hash_some(local@, row.key@, lrow.hash@);
            },
            Option::None => {
                lemma_local_hash_none(local@, row.key@);
            },
        }
        match base {
            Option::Some(h) => {
                lemma_baseline_some(baseline@, row.key@, h@);
            },
            Option::None => {
                lemma_baseline_none(baseline@, row.key@);
            },
        }
    }
    classify(base, local_hash, &row.hash, seed)
}

/// Merge one peer's keyed rows against the local rows and the baseline:
/// the result holds, in remote order, exactly one change for every remote
/// row whose three-way classification is not `Skip`, carrying that row's
/// key and that classification.
#[verifier::rlimit(100)]
pub fn merge_rows(
    local: &Vec<KeyedRow>,
    remote: &Vec<KeyedRow>,
    baseline: &Vec<(String, String)>,
    seed: bool,
) -> (r: Vec<MergeChange>)
    requires
        forall|i: int, j: int|
            0 <= i < j < local@.len() ==> (#[trigger] local@[i]).key@ != (
            #[trigger] local@[j]).key@,
        forall|i: int, j: int|
            0 <= i < j < baseline@.len() ==> (#[trigger] baseline@[i]).0@ != (
            #[trigger] baseline@[j]).0@,
    ensures
        forall|m: int, m2: int|
            0 <= m < m2 < r@.len() ==> (#[trigger] r@[m]).remote_src < (
            #[trigger] r@[m2]).remote_src,
        forall|m: int|
            #![trigger r@[m]]
            0 <= m < r@.len() ==> {
                &&& r@[m].remote_src < remote@.len()
                &&& r@[m].key@ == remote@[r@[m].remote_src as int].key@
                &&& r@[m].decision == remote_decision(
                    local@,
                    baseline@,
                    remote@[r@[m].remote_src as int],
                    seed,
                )
                &&& r@[m].decision != MergeDecision::Skip
            },
        forall|i: int|
            0 <= i < remote@.len() && remote_decision(local@, baseline@, #[trigger] remote@[i], seed)
                != MergeDecision::Skip ==> exists|m: int|
                0 <= m < r@.len() && (#[trigger] r@[m]).remote_src == i,
{
    let mut out: Vec<MergeChange> = Vec::new();
    let mut i: usize = 0;
    while i < remote.len()
        invariant
            i <= remote@.len(),
            forall|a: int, b: int|
                0 <= a < b < local@.len() ==> (#[trigger] local@[a]).key@ != (
                #[trigger] local@[b]).key@,
            forall|a: int, b: int|
                0 <= a < b < baseline@.len() ==> (#[trigger] baseline@[a]).0@ != (
                #[trigger] baseline@[b]).0@,
            forall|m: int, m2: int|
                0 <= m < m2 < out@.len() ==> (#[trigger] out@[m]).remote_src < (
                #[trigger] out@[m2]).remote_src,
            forall|m: int| 0 <= m < out@.len() ==> (#[trigger] out@[m]).remote_src < i,
            forall|m: int|
                #![trigger out@[m]]
                0 <= m < out@.len() ==> {
                    &&& out@[m].remote_src < remote@.len()
                    &&& out@[m].key@ == remote@[out@[m].remote_src as int].key@
                    &&& out@[m].decision == remote_decision(
                        local@,
                        baseline@,
                        remote@[out@[m].remote_src as int],
                        seed,
                    )
                    &&& out@[m].decision != MergeDecision::Skip
                },
            forall|j: int|
                0 <= j < i && remote_decision(local@, baseline@, #[trigger] remote@[j], seed)
                    != MergeDecision::Skip ==> exists|m: int|
                    0 <= m < out@.len() && (#[trigger] out@[m]).remote_src == j,
        decreases remote@.len() - i,
    {
        let row = &remote[i];
        proof {
            assert(*row == remote@[i as int]);
        }
        let decision = decide_row(local, baseline, row, seed);
        let take = match decision {
            MergeDecision::Skip => false,
            MergeDecision::Adopt => true,
            MergeDecision::SeedBaseline => true,
            MergeDecision::Conflict => true,
        };
        if take {
            let change = MergeChange {
                key: crate::state::clone_string(&row.key),
                remote_src: i,
                decision,
            };
            let ghost before = out@;
            out.push(change);
            proof {
                assert(forall|m: int| 0 <= m < before.len() ==> out@[m] == #[trigger] before[m]);
                assert(out@[out@.len() - 1].remote_src == i as int);
                assert(out@[out@.len() - 1].key@ == remote@[i as int].key@);
                assert forall|j: int|
                    0 <= j < i + 1 && remote_decision(local@, baseline@, #[trigger] remote@[j], seed)
                        != MergeDecision::Skip implies exists|m: int|
                    0 <= m < out@.len() && (#[trigger] out@[m]).remote_src == j by {
                    if j < i {
                        let m = choose|m: int|
                            0 <= m < before.len() && (#[trigger] before[m]).remote_src == j;
                        assert(out@[m].remote_src == j);
                    } else {
                        assert(out@[out@.len() - 1].remote_src == j);
                    }
                }
            }
        }
        i = i + 1;
    }
    out
}

/// When every remote row already agrees with a local row, the merge decides
/// nothing: a reconcile that finds all peers equal to the local state
/// applies no action and raises no conflict, so a second run over unchanged
/// states is idempotent.
pub proof fn lemma_merge_rows_quiescent(
    local: Seq<KeyedRow>,
    remote: Seq<KeyedRow>,
    baseline: Seq<(String, String)>,
    seed: bool,
    r: Seq<MergeChange>,
)
    requires
        forall|i: int, j: int|
            0 <= i < j < local.len() ==> (#[trigger] local[i]).key@ != (#[trigger] local[j]).key@,
        forall|m: int|
            #![trigger r[m]]
            0 <= m < r.len() ==> {
                &&& r[m].remote_src < remote.len()
                &&& r[m].decision == remote_decision(
                    local,
                    baseline,
                    remote[r[m].remote_src as int],
                    seed,
                )
                &&& r[m].decision != MergeDecision::Skip
            },
        forall|i: int|
            0 <= i < remote.len() ==> local_matches(
                local,
                (#[trigger] remote[i]).key@,
                remote[i].hash@,
            ),
    ensures
        r.len() == 0,
{
    if r.len() > 0 {
        let src = r[0].remote_src as int;
        assert(local_matches(local, remote[src].key@, remote[src].hash@));
        lemma_local_hash_some(local, remote[src].key@, remote[src].hash@);
        assert(remote_decision(local, baseline, remote[src], seed) == MergeDecision::Skip) by {
            reveal(classify_spec);
        }
        assert(false);
    }
}

/// The reconcile outcome statuses, derived exactly as the reconciler ranks
/// them: conflicts first, then binary failures, then offline peers, then
/// untrusted skips, else synced.
pub open spec fn status_spec(
    conflicts: nat,
    binary_failures: nat,
    offline: nat,
    prelaunch: bool,
    has_last_good: bool,
    local_matches_last_good: bool,
    skipped_untrusted: nat,
) -> Seq<char> {
    if conflicts > 0 {
        "conflicted"@
    } else if binary_failures > 0 && prelaunch {
        "error"@
    } else if binary_failures > 0 {
        "degraded_missing_files"@
    } else if offline > 0 {
        if has_last_good {
            if local_matches_last_good {
                "degraded_offline_last_good"@
            } else if prelaunch {
                "blocked_offline_stale"@
            } else {
                "error"@
            }
        } else if prelaunch {
            "blocked_offline_stale"@
        } else {
            "error"@
        }
    } else if skipped_untrusted > 0 {
        "blocked_untrusted"@
    } else {
        "synced"@
    }
}

/// Derive the outcome status of a reconcile run.
pub fn derive_status(
    conflicts: usize,
    binary_failures: usize,
    offline: usize,
    prelaunch: bool,
    has_last_good: bool,
    local_matches_last_good: bool,
    skipped_untrusted: usize,
) -> (r: String)
    ensures
        r@ == status_spec(
            conflicts as nat,
            binary_failures as nat,
            offline as nat,
            prelaunch,
            has_last_good,
            local_matches_last_good,
            skipped_untrusted as nat,
        ),
{
    if conflicts > 0 {
        crate::state::lit_string("conflicted")
    } else if binary_failures > 0 && prelaunch {
        crate::state::lit_string("error")
    } else if binary_failures > 0 {
        crate::state::lit_string("degraded_missing_files")
    } else if offline > 0 {
        if has_last_good {
            if local_matches_last_good {
                crate::state::lit_string("degraded_offline_last_good")
            } else if prelaunch {
                crate::state::lit_string("blocked_offline_stale")
            } else {
                crate::state::lit_string("error")
            }
        } else if prelaunch {
            crate::state::lit_string("blocked_offline_stale")
        } else {
            crate::state::lit_string("error")
        }
    } else if skipped_untrusted > 0 {
        crate::state::lit_string("blocked_untrusted")
    } else {
        crate::state::lit_string("synced")
    }
}

/// A clean run over equal states ends `synced`: no conflicts, no binary
/// failures, every peer online and trusted.
pub proof fn lemma_status_synced_when_clean(prelaunch: bool, has_last_good: bool, matches: bool)
    ensures
        status_spec(0, 0, 0, prelaunch, has_last_good, matches, 0) == "synced"@,
{
}

/// Record the last-good baseline: the given state's hash and manifest rows.
/// After a `synced` reconcile the baseline hash equals the freshly
/// collected state's hash.
pub fn store_last_good(session: &mut FriendLinkSessionRecord, local_state: &SyncState, updated_at: String)
    ensures
        match final(session).last_good_snapshot {
            Option::Some(snap) => {
                &&& snap.state_hash@ == local_state.state_hash@
                &&& snap.updated_at@ == updated_at@
            },
            Option::None => false,
        },
        final(session).bootstrap_host_peer_id == old(session).bootstrap_host_peer_id,
        final(session).peers@ == old(session).peers@,
        final(session).pending_conflicts@ == old(session).pending_conflicts@,
{
    let manifest = crate::state::state_manifest(local_state);
    let mut rows: Vec<FriendManifestEntry> = Vec::new();
    let mut i: usize = 0;
    while i < manifest.len()
        invariant
            i <= manifest@.len(),
        decreases manifest@.len() - i,
    {
        rows.push(
            FriendManifestEntry {
                key: crate::state::clone_string(&manifest[i].0),
                hash: crate::state::clone_string(&manifest[i].1),
                kind: crate::state::clone_string(&manifest[i].2),
            },
        );
        i = i + 1;
    }
    session.last_good_snapshot = Option::Some(
        FriendLastGoodSnapshot {
            state_hash: crate::state::clone_string(&local_state.state_hash),
            manifest: rows,
            updated_at,
        },
    );
}

/// Build a conflict record for a lock entry.
pub fn conflict_from_lock(
    key: &str,
    peer_id: &str,
    mine: Option<&CanonicalLockEntry>,
    theirs: &CanonicalLockEntry,
    mine_hash: Option<String>,
    theirs_hash: String,
) -> (r: FriendSyncConflictRecord)
    requires
        match (mine, &mine_hash) {
            (Option::Some(m), Option::Some(h)) => entry_hash_matches(m@, h@),
            (Option::None, Option::None) => true,
            _ => false,
        },
        entry_hash_matches(theirs@, theirs_hash@),
    ensures
        r.kind@ == "lock_entry"@,
        r.key@ == key@,
        r.peer_id@ == peer_id@,
        match mine {
            Option::Some(m) => entry_hash_matches(m@, r.mine_hash@),
            Option::None => r.mine_hash@ == "absent"@,
        },
        entry_hash_matches(theirs@, r.theirs_hash@),
        r.theirs_value is Some,
{
    let id = make_conflict_id();
    let created_at = crate::trusted::now_iso();
    let (mine_hash_s, mine_preview, mine_value): (String, Option<String>, Option<ConflictValue>) =
        match (mine, mine_hash) {
        (Option::Some(m), Option::Some(h)) => (
            h,
            Option::Some(crate::paths::preview_for_lock_entry(m)),
            Option::Some(ConflictValue::LockEntry(duplicate_entry(m))),
        ),
        _ => (crate::state::lit_string("absent"), Option::None, Option::None),
    };
    FriendSyncConflictRecord {
        id,
        kind: crate::state::lit_string("lock_entry"),
        key: crate::state::lit_string(key),
        peer_id: crate::state::lit_string(peer_id),
        mine_hash: mine_hash_s,
        theirs_hash,
        mine_preview,
        theirs_preview: Option::Some(crate::paths::preview_for_lock_entry(theirs)),
        mine_value,
        theirs_value: Option::Some(ConflictValue::LockEntry(duplicate_entry(theirs))),
        created_at,
    }
}

/// Build a conflict record for a config file.
pub fn conflict_from_config(
    key: &str,
    peer_id: &str,
    mine: Option<&ConfigFileState>,
    theirs: &ConfigFileState,
) -> (r: FriendSyncConflictRecord)
    ensures
        r.kind@ == "config_file"@,
        r.key@ == key@,
        r.peer_id@ == peer_id@,
        match mine {
            Option::Some(m) => r.mine_hash@ == m.hash@,
            Option::None => r.mine_hash@ == "absent"@,
        },
        r.theirs_hash@ == theirs.hash@,
        r.theirs_value is Some,
{
    let id = make_conflict_id();
    let created_at = crate::trusted::now_iso();
    let (mine_hash_s, mine_preview, mine_value): (String, Option<String>, Option<ConflictValue>) =
        match mine {
        Option::Some(m) => (
            crate::state::clone_string(&m.hash),
            Option::Some(crate::paths::preview_for_config_file(m)),
            Option::Some(ConflictValue::ConfigFile(duplicate_config(m))),
        ),
        Option::None => (crate::state::lit_string("absent"), Option::None, Option::None),
    };
    FriendSyncConflictRecord {
        id,
        kind: crate::state::lit_string("config_file"),
        key: crate::state::lit_string(key),
        peer_id: crate::state::lit_string(peer_id),
        mine_hash: mine_hash_s,
        theirs_hash: crate::state::clone_string(&theirs.hash),
        mine_preview,
        theirs_preview: Option::Some(crate::paths::preview_for_config_file(theirs)),
        mine_value,
        theirs_value: Option::Some(ConflictValue::ConfigFile(duplicate_config(theirs))),
        created_at,
    }
}

/// A fresh conflict identifier.
fn make_conflict_id() -> (r: String)
    ensures
        crate::text::has_prefix(r@, "conf_"@),
{
    let mut out: Vec<char> = Vec::new();
    crate::text::push_str_chars(&mut out, "conf_");
    let u = crate::trusted::fresh_uuid();
    crate::text::push_str_chars(&mut out, u.as_str());
    proof {
        assert(out@.subrange(0, "conf_"@.len() as int) =~= "conf_"@);
    }
    crate::text::string_from_chars(&out)
}

/// An owned copy of a lock entry, field for field.
#[verifier::loop_isolation(false)]
pub fn duplicate_entry(e: &CanonicalLockEntry) -> (r: CanonicalLockEntry)
    ensures
        r@ == e@,
{
    let mut worlds: Vec<String> = Vec::new();
    let mut i: usize = 0;
    while i < e.target_worlds.len()
        invariant
            i <= e.target_worlds@.len(),
            crate::state::strs_view(worlds@) == crate::state::strs_view(
                e.target_worlds@,
            ).subrange(0, i as int),
        decreases e.target_worlds@.len() - i,
    {
        let ghost before = crate::state::strs_view(worlds@);
        worlds.push(crate::state::clone_string(&e.target_worlds[i]));
        i = i + 1;
        proof {
            assert(crate::state::strs_view(worlds@) =~= crate::state::strs_view(
                e.target_worlds@,
            ).subrange(0, i as int)) by {
                assert(worlds@[i - 1]@ == e.target_worlds@[i - 1]@);
                assert(forall|m: int|
                    0 <= m < i - 1 ==> #[trigger] crate::state::strs_view(worlds@)[m]
                        == before[m]);
            }
        }
    }
    let mut hashes: Vec<(String, String)> = Vec::new();
    let mut j: usize = 0;
    while j < e.hashes.len()
        invariant
            j <= e.hashes@.len(),
            crate::state::pairs_view(hashes@) == crate::state::pairs_view(e.hashes@).subrange(
                0,
                j as int,
            ),
        decreases e.hashes@.len() - j,
    {
        let ghost before = crate::state::pairs_view(hashes@);
        hashes.push(
            (
                crate::state::clone_string(&e.hashes[j].0),
                crate::state::clone_string(&e.hashes[j].1),
            ),
        );
        j = j + 1;
        proof {
            assert(crate::state::pairs_view(hashes@) =~= crate::state::pairs_view(
                e.hashes@,
            ).subrange(0, j as int)) by {
                assert(hashes@[j - 1].0@ == e.hashes@[j - 1].0@);
                assert(hashes@[j - 1].1@ == e.hashes@[j - 1].1@);
                assert(forall|m: int|
                    0 <= m < j - 1 ==> #[trigger] crate::state::pairs_view(hashes@)[m]
                        == before[m]);
            }
        }
    }
    let r = CanonicalLockEntry {
        source: crate::state::clone_string(&e.source),
        project_id: crate::state::clone_string(&e.project_id),
        version_id: crate::state::clone_string(&e.version_id),
        name: crate::state::clone_string(&e.name),
        version_number: crate::state::clone_string(&e.version_number),
        filename: crate::state::clone_string(&e.filename),
        content_type: crate::state::clone_string(&e.content_type),
        target_scope: crate::state::clone_string(&e.target_scope),
        target_worlds: worlds,
        enabled: e.enabled,
        hashes,
    };
    proof {
        assert(crate::state::strs_view(e.target_worlds@).subrange(
            0,
            e.target_worlds@.len() as int,
        ) =~= crate::state::strs_view(e.target_worlds@));
        assert(crate::state::pairs_view(e.hashes@).subrange(
            0,
            e.hashes@.len() as int,
        ) =~= crate::state::pairs_view(e.hashes@));
    }
    r
}

/// An owned copy of a config file record.
pub fn duplicate_config(f: &ConfigFileState) -> (r: ConfigFileState)
    ensures
        r@ == f@,
{
    ConfigFileState {
        path: crate::state::clone_string(&f.path),
        modified_at: f.modified_at,
        hash: crate::state::clone_string(&f.hash),
        content: crate::state::clone_string(&f.content),
    }
}

/// One conflict as shown to callers.
pub struct FriendSyncConflict {
    pub id: String,
    pub kind: String,
    pub key: String,
    pub peer_id: String,
    pub mine_hash: String,
    pub theirs_hash: String,
    pub mine_preview: Option<String>,
    pub theirs_preview: Option<String>,
}

/// Project pending conflict records to their public shape.
pub fn sync_conflicts_public(conflicts: &Vec<FriendSyncConflictRecord>) -> (r: Vec<
    FriendSyncConflict,
>)
    ensures
        r@.len() == conflicts@.len(),
        forall|i: int|
            0 <= i < r@.len() ==> {
                &&& (#[trigger] r@[i]).id@ == conflicts@[i].id@
                &&& r@[i].kind@ == conflicts@[i].kind@
                &&& r@[i].key@ == conflicts@[i].key@
                &&& r@[i].peer_id@ == conflicts@[i].peer_id@
                &&& r@[i].mine_hash@ == conflicts@[i].mine_hash@
                &&& r@[i].theirs_hash@ == conflicts@[i].theirs_hash@
            },
{
    let mut out: Vec<FriendSyncConflict> = Vec::new();
    let mut i: usize = 0;
    while i < conflicts.len()
        invariant
            i <= conflicts@.len(),
            out@.len() == i,
            forall|m: int|
                0 <= m < i ==> {
                    &&& (#[trigger] out@[m]).id@ == conflicts@[m].id@
                    &&& out@[m].kind@ == conflicts@[m].kind@
                    &&& out@[m].key@ == conflicts@[m].key@
                    &&& out@[m].peer_id@ == conflicts@[m].peer_id@
                    &&& out@[m].mine_hash@ == conflicts@[m].mine_hash@
                    &&& out@[m].theirs_hash@ == conflicts@[m].theirs_hash@
                },
        decreases conflicts@.len() - i,
    {
        let c = &conflicts[i];
        out.push(
            FriendSyncConflict {
                id: crate::state::clone_string(&c.id),
                kind: crate::state::clone_string(&c.kind),
                key: crate::state::clone_string(&c.key),
                peer_id: crate::state::clone_string(&c.peer_id),
                mine_hash: crate::state::clone_string(&c.mine_hash),
                theirs_hash: crate::state::clone_string(&c.theirs_hash),
                mine_preview: match &c.mine_preview {
                    Option::Some(p) => Option::Some(crate::state::clone_string(p)),
                    Option::None => Option::None,
                },
                theirs_preview: match &c.theirs_preview {
                    Option::Some(p) => Option::Some(crate::state::clone_string(p)),
                    Option::None => Option::None,
                },
            },
        );
        i = i + 1;
    }
    out
}

/// One requested resolution.
pub struct ConflictResolutionItem {
    pub conflict_id: String,
    pub resolution: String,
}

/// The whole resolution request.
pub struct ConflictResolutionPayload {
    pub keep_all_mine: bool,
    pub take_all_theirs: bool,
    pub items: Vec<ConflictResolutionItem>,
}

/// The first explicit resolution named for a conflict id, scanning the
/// request's items from one index on.
pub open spec fn first_resolution_from(
    items: Seq<ConflictResolutionItem>,
    id: Seq<char>,
    from: int,
) -> Option<Seq<char>>
    decreases items.len() - from,
    when 0 <= from <= items.len()
{
    if from >= items.len() {
        Option::None
    } else if items[from].conflict_id@ == id {
        Option::Some(items[from].resolution@)
    } else {
        first_resolution_from(items, id, from + 1)
    }
}

/// The raw resolution text applied to one conflict id: the first explicit
/// entry wins, else the global flag, else skip.
pub open spec fn resolution_raw(
    items: Seq<ConflictResolutionItem>,
    keep_all_mine: bool,
    take_all_theirs: bool,
    id: Seq<char>,
) -> Seq<char> {
    match first_resolution_from(items, id, 0) {
        Option::Some(r) => r,
        Option::None => if take_all_theirs {
            "take_theirs"@
        } else if keep_all_mine {
            "keep_mine"@
        } else {
            "skip_for_now"@
        },
    }
}

/// Whether a conflict is kept pending: its resolution reads `skip_for_now`,
/// in any letter case.
pub open spec fn skip_decided(
    items: Seq<ConflictResolutionItem>,
    keep_all_mine: bool,
    take_all_theirs: bool,
    id: Seq<char>,
) -> bool {
    crate::text::lower_spec(resolution_raw(items, keep_all_mine, take_all_theirs, id))
        == "skip_for_now"@
}

/// Whether the remote value is taken: the resolution reads `take_theirs`,
/// in any letter case.
pub open spec fn take_decided(
    items: Seq<ConflictResolutionItem>,
    keep_all_mine: bool,
    take_all_theirs: bool,
    id: Seq<char>,
) -> bool {
    crate::text::lower_spec(resolution_raw(items, keep_all_mine, take_all_theirs, id))
        == "take_theirs"@
}

/// The three resolution words are lower case already and pairwise distinct.
proof fn lemma_res_literals()
    ensures
        crate::text::lower_spec("skip_for_now"@) == "skip_for_now"@,
        crate::text::lower_spec("take_theirs"@) == "take_theirs"@,
        crate::text::lower_spec("keep_mine"@) == "keep_mine"@,
        "skip_for_now"@ != "take_theirs"@,
        "skip_for_now"@ != "keep_mine"@,
        "take_theirs"@ != "keep_mine"@,
{
    reveal_strlit("skip_for_now");
    reveal_strlit("take_theirs");
    reveal_strlit("keep_mine");
    assert("skip_for_now"@.len() == 12);
    assert("take_theirs"@.len() == 11);
    assert("keep_mine"@.len() == 9);
    assert(crate::text::lower_spec("skip_for_now"@) =~= "skip_for_now"@) by {
        assert forall|i: int| 0 <= i < "skip_for_now"@.len() implies crate::text::lower_spec(
            "skip_for_now"@,
        )[i] == "skip_for_now"@[i] by {
            assert(crate::text::lower_spec("skip_for_now"@)[i] == crate::text::lower_char_spec(
                "skip_for_now"@[i],
            ));
        }
    }
    assert(crate::text::lower_spec("take_theirs"@) =~= "take_theirs"@) by {
        assert forall|i: int| 0 <= i < "take_theirs"@.len() implies crate::text::lower_spec(
            "take_theirs"@,
        )[i] == "take_theirs"@[i] by {
            assert(crate::text::lower_spec("take_theirs"@)[i] == crate::text::lower_char_spec(
                "take_theirs"@[i],
            ));
        }
    }
    assert(crate::text::lower_spec("keep_mine"@) =~= "keep_mine"@) by {
        assert forall|i: int| 0 <= i < "keep_mine"@.len() implies crate::text::lower_spec(
            "keep_mine"@,
        )[i] == "keep_mine"@[i] by {
            assert(crate::text::lower_spec("keep_mine"@)[i] == crate::text::lower_char_spec(
                "keep_mine"@[i],
            ));
        }
    }
}

/// Pick the resolution for one conflict id: the first explicit entry wins,
/// else a global flag, else skip.
pub fn resolution_for(conflict_id: &String, payload: &ConflictResolutionPayload) -> (r: String)
    ensures
        r@ == resolution_raw(
            payload.items@,
            payload.keep_all_mine,
            payload.take_all_theirs,
            conflict_id@,
        ),
{
    let mut i: usize = 0;
    while i < payload.items.len()
        invariant
            i <= payload.items@.len(),
            first_resolution_from(payload.items@, conflict_id@, 0) == first_resolution_from(
                payload.items@,
                conflict_id@,
                i as int,
            ),
        decreases payload.items@.len() - i,
    {
        if crate::text::str_eq(&payload.items[i].conflict_id, conflict_id) {
            let r = crate::state::clone_string(&payload.items[i].resolution);
            proof {
                assert(first_resolution_from(payload.items@, conflict_id@, i as int)
                    == Option::Some(payload.items@[i as int].resolution@));
            }
            return r;
        }
        i = i + 1;
    }
    if payload.take_all_theirs {
        crate::state::lit_string("take_theirs")
    } else if payload.keep_all_mine {
        crate::state::lit_string("keep_mine")
    } else {
        crate::state::lit_string("skip_for_now")
    }
}

/// The expected digest of an entry's declared hashes: SHA-512 when one is
/// declared, else SHA-256 when one is declared, else nothing.
pub enum DeclaredHash {
    Sha512(String),
    Sha256(String),
    Unverified,
}

/// Strip everything but hexadecimal digits, lower-cased.
pub open spec fn hex_only_spec(s: Seq<char>) -> Seq<char>
    decreases s.len(),
{
    if s.len() == 0 {
        Seq::empty()
    } else {
        let rest = hex_only_spec(s.drop_first());
        if is_hex_digit(s[0]) {
            seq![crate::text::lower_char_spec(s[0])] + rest
        } else {
            rest
        }
    }
}

/// Whether `c` is an ASCII hexadecimal digit.
pub open spec fn is_hex_digit(c: char) -> bool {
    ('0' <= c && c <= '9') || ('a' <= c && c <= 'f') || ('A' <= c && c <= 'F')
}

/// Keep only hexadecimal digits of a declared digest, lower-cased.
pub fn normalize_hash_hex(input: &str) -> (r: String)
    ensures
        r@ == hex_only_spec(input@),
{
    let v = crate::text::chars_vec(input);
    let mut out: Vec<char> = Vec::new();
    let mut i: usize = 0;
    proof {
        assert(v@.skip(0) =~= v@);
    }
    while i < v.len()
        invariant
            i <= v.len(),
            hex_only_spec(v@) == out@ + hex_only_spec(v@.skip(i as int)),
        decreases v.len() - i,
    {
        let ghost rem = v@.skip(i as int);
        proof {
            assert(rem[0] == v@[i as int]);
            assert(rem.drop_first() =~= v@.skip(i + 1));
        }
        let c = v[i];
        let is_hex = ('0' <= c && c <= '9') || ('a' <= c && c <= 'f') || ('A' <= c && c <= 'F');
        if is_hex {
            out.push(crate::text::lower_char(c));
            proof {
                assert(out@.drop_last() + hex_only_spec(rem) =~= out@ + hex_only_spec(
                    v@.skip(i + 1),
                ));
            }
        }
        i = i + 1;
    }
    proof {
        assert(v@.skip(v@.len() as int).len() == 0);
        assert(out@ + hex_only_spec(v@.skip(v@.len() as int)) =~= out@);
    }
    crate::text::string_from_chars(&out)
}

/// Whether a declared algorithm name means SHA-512.
pub open spec fn is_sha512_name(k: Seq<char>) -> bool {
    crate::text::lower_spec(crate::text::trim_spec(k)) == "sha512"@ || crate::text::lower_spec(
        crate::text::trim_spec(k),
    ) == "sha-512"@
}

/// Whether a declared algorithm name means SHA-256.
pub open spec fn is_sha256_name(k: Seq<char>) -> bool {
    crate::text::lower_spec(crate::text::trim_spec(k)) == "sha256"@ || crate::text::lower_spec(
        crate::text::trim_spec(k),
    ) == "sha-256"@
}

/// The first declared pair naming the wanted algorithm whose value still
/// holds hexadecimal digits after canonicalization, as that canonical value.
pub open spec fn first_declared_hex(
    pairs: Seq<(Seq<char>, Seq<char>)>,
    want512: bool,
) -> Option<Seq<char>>
    decreases pairs.len(),
{
    if pairs.len() == 0 {
        Option::None
    } else if (if want512 {
        is_sha512_name(pairs[0].0)
    } else {
        is_sha256_name(pairs[0].0)
    }) && hex_only_spec(pairs[0].1).len() > 0 {
        Option::Some(hex_only_spec(pairs[0].1))
    } else {
        first_declared_hex(pairs.drop_first(), want512)
    }
}

/// Pick the digest an entry's declared hashes demand: the first usable
/// sha512 value wins over the first usable sha256 value; an entry that
/// declares neither is unverified.
#[verifier::loop_isolation(false)]
pub fn declared_hash_for(entry: &CanonicalLockEntry) -> (r: DeclaredHash)
    ensures
        match r {
            DeclaredHash::Sha512(h) => first_declared_hex(
                crate::state::pairs_view(entry.hashes@),
                true,
            ) == Option::Some(h@),
            DeclaredHash::Sha256(h) => first_declared_hex(
                crate::state::pairs_view(entry.hashes@),
                true,
            ) is None && first_declared_hex(crate::state::pairs_view(entry.hashes@), false)
                == Option::Some(h@),
            DeclaredHash::Unverified => first_declared_hex(
                crate::state::pairs_view(entry.hashes@),
                true,
            ) is None && first_declared_hex(crate::state::pairs_view(entry.hashes@), false)
                is None,
        },
{
    let ghost pv = crate::state::pairs_view(entry.hashes@);
    let mut sha512: Option<String> = Option::None;
    let mut sha256: Option<String> = Option::None;
    let mut i: usize = 0;
    proof {
        assert(pv.skip(0) =~= pv);
    }
    while i < entry.hashes.len()
        invariant
            i <= entry.hashes@.len(),
            pv == crate::state::pairs_view(entry.hashes@),
            match sha512 {
                Option::Some(h) => first_declared_hex(pv, true) == Option::Some(h@),
                Option::None => first_declared_hex(pv, true) == first_declared_hex(
                    pv.skip(i as int),
                    true,
                ),
            },
            match sha256 {
                Option::Some(h) => first_declared_hex(pv, false) == Option::Some(h@),
                Option::None => first_declared_hex(pv, false) == first_declared_hex(
                    pv.skip(i as int),
                    false,
                ),
            },
        decreases entry.hashes@.len() - i,
    {
        let ghost rem = pv.skip(i as int);
        proof {
            assert(rem[0] == (entry.hashes@[i as int].0@, entry.hashes@[i as int].1@));
            assert(rem.drop_first() =~= pv.skip(i + 1));
        }
        let key = crate::text::trim_lower(entry.hashes[i].0.as_str());
        let is512 = crate::state::str_eq_lit(&key, "sha512") || crate::state::str_eq_lit(
            &key,
            "sha-512",
        );
        let is256 = crate::state::str_eq_lit(&key, "sha256") || crate::state::str_eq_lit(
            &key,
            "sha-256",
        );
        let cleaned = normalize_hash_hex(entry.hashes[i].1.as_str());
        let usable = !cleaned.as_str().is_empty();
        let taken512 = match &sha512 {
            Option::Some(_) => true,
            Option::None => false,
        };
        let taken256 = match &sha256 {
            Option::Some(_) => true,
            Option::None => false,
        };
        proof {
            assert(is512 == is_sha512_name(rem[0].0));
            assert(is256 == is_sha256_name(rem[0].0));
            assert(cleaned@ == hex_only_spec(rem[0].1));
            // The two algorithm names never coincide.
            reveal_strlit("sha512");
            reveal_strlit("sha-512");
            reveal_strlit("sha256");
            reveal_strlit("sha-256");
            assert("sha512"@[3] == '5' && "sha256"@[3] == '2');
            assert("sha-512"@[4] == '5' && "sha-256"@[4] == '2');
            assert(!(is512 && is256));
        }
        if is512 && usable && !taken512 {
            proof {
                assert(first_declared_hex(rem, true) == Option::Some(hex_only_spec(rem[0].1)));
            }
            sha512 = Option::Some(cleaned);
        } else if is256 && usable && !taken256 {
            proof {
                assert(first_declared_hex(rem, false) == Option::Some(hex_only_spec(rem[0].1)));
                if !taken512 {
                    assert(first_declared_hex(rem, true) == first_declared_hex(
                        rem.drop_first(),
                        true,
                    ));
                }
            }
            sha256 = Option::Some(cleaned);
        } else {
            proof {
                if !taken512 {
                    assert(first_declared_hex(rem, true) == first_declared_hex(
                        rem.drop_first(),
                        true,
                    ));
                }
                if !taken256 {
                    assert(first_declared_hex(rem, false) == first_declared_hex(
                        rem.drop_first(),
                        false,
                    ));
                }
            }
        }
        i = i + 1;
    }
    proof {
        assert(pv.skip(pv.len() as int).len() == 0);
    }
    match sha512 {
        Option::Some(h) => DeclaredHash::Sha512(h),
        Option::None => match sha256 {
            Option::Some(h) => DeclaredHash::Sha256(h),
            Option::None => DeclaredHash::Unverified,
        },
    }
}

/// Verify fetched bytes against the digest an entry declares: the bytes
/// are accepted exactly when their digest equals the declared one, or when
/// nothing was declared.
pub fn verify_bytes_against_entry_hashes(bytes: &Vec<u8>, declared: &DeclaredHash) -> (r: Result<
    (),
    String,
>)
    ensures
        match declared {
            DeclaredHash::Sha512(h) => r is Ok <==> crate::trusted::sha512_hex_of(bytes@) == h@,
            DeclaredHash::Sha256(h) => r is Ok <==> crate::trusted::sha256_hex_of(bytes@) == h@,
            DeclaredHash::Unverified => r is Ok,
        },
{
    match declared {
        DeclaredHash::Sha512(expected) => {
            let actual = crate::trusted::sha512_hex(bytes.as_slice());
            if crate::text::str_eq(&actual, expected) {
                Ok(())
            } else {
                Err(crate::state::lit_string("sha512 mismatch"))
            }
        },
        DeclaredHash::Sha256(expected) => {
            let actual = crate::trusted::sha256_hex(bytes.as_slice());
            if crate::text::str_eq(&actual, expected) {
                Ok(())
            } else {
                Err(crate::state::lit_string("sha256 mismatch"))
            }
        },
        DeclaredHash::Unverified => Ok(()),
    }
}

/// Verify a peer's transferred bytes against the digest it advertised.
pub fn verify_peer_bytes(bytes: &Vec<u8>, advertised_sha256: Option<&String>) -> (r: bool)
    ensures
        match advertised_sha256 {
            Option::Some(h) => r == (crate::trusted::sha256_hex_of(bytes@) == h@),
            Option::None => r,
        },
{
    match advertised_sha256 {
        Option::Some(expected) => {
            let actual = crate::trusted::sha256_hex(bytes.as_slice());
            crate::text::str_eq(&actual, expected)
        },
        Option::None => true,
    }
}

/// The probe order of the binary fetcher: exactly the given endpoints as a
/// set, each once, with the preferred endpoint first when it is among them.
#[verifier::loop_isolation(false)]
pub fn probe_order(preferred: Option<&String>, endpoints: &Vec<String>) -> (r: Vec<String>)
    ensures
        forall|i: int, j: int|
            0 <= i < j < r@.len() ==> (#[trigger] crate::paths::strs_view_of(r@)[i]) != (
            #[trigger] crate::paths::strs_view_of(r@)[j]),
        forall|s: Seq<char>| #[trigger]
            crate::paths::strs_view_of(r@).contains(s) <==> crate::paths::strs_view_of(
                endpoints@,
            ).contains(s),
        match preferred {
            Option::Some(p) => crate::paths::strs_view_of(endpoints@).contains(p@) ==> r@.len() > 0
                && r@[0]@ == p@,
            Option::None => true,
        },
{
    let mut out: Vec<String> = Vec::new();
    match preferred {
        Option::Some(p) => {
            if order_contains(endpoints, p) {
                out.push(crate::state::clone_string(p));
                proof {
                    assert(crate::paths::strs_view_of(out@)[0] == p@);
                }
            }
        },
        Option::None => {},
    }
    let mut i: usize = 0;
    while i < endpoints.len()
        invariant
            i <= endpoints@.len(),
            forall|a: int, b: int|
                0 <= a < b < out@.len() ==> (#[trigger] crate::paths::strs_view_of(out@)[a]) != (
                #[trigger] crate::paths::strs_view_of(out@)[b]),
            forall|s: Seq<char>| #[trigger]
                crate::paths::strs_view_of(out@).contains(s) ==> crate::paths::strs_view_of(
                    endpoints@,
                ).contains(s),
            forall|m: int|
                0 <= m < i ==> crate::paths::strs_view_of(out@).contains(
                    (#[trigger] endpoints@[m])@,
                ),
            match preferred {
                Option::Some(p) => crate::paths::strs_view_of(endpoints@).contains(p@)
                    ==> out@.len() > 0 && out@[0]@ == p@,
                Option::None => true,
            },
        decreases endpoints@.len() - i,
    {
        let e = &endpoints[i];
        proof {
            assert(*e == endpoints@[i as int]);
        }
        if !order_contains(&out, e) {
            let ghost before = crate::paths::strs_view_of(out@);
            out.push(crate::state::clone_string(e));
            proof {
                assert(forall|m: int|
                    0 <= m < before.len() ==> #[trigger] crate::paths::strs_view_of(out@)[m]
                        == before[m]);
                assert(crate::paths::strs_view_of(out@)[out@.len() - 1] == endpoints@[i as int]@);
                assert(crate::paths::strs_view_of(endpoints@).contains(endpoints@[i as int]@)) by {
                    assert(crate::paths::strs_view_of(endpoints@)[i as int]
                        == endpoints@[i as int]@);
                }
                assert forall|s: Seq<char>| #[trigger]
                    crate::paths::strs_view_of(out@).contains(s) implies crate::paths::strs_view_of(
                    endpoints@,
                ).contains(s) by {
                    let w = choose|w: int|
                        0 <= w < crate::paths::strs_view_of(out@).len()
                            && crate::paths::strs_view_of(out@)[w] == s;
                    if w < before.len() {
                        assert(before.contains(s)) by {
                            assert(before[w] == s);
                        }
                    }
                }
                assert forall|m: int| 0 <= m < i + 1 implies crate::paths::strs_view_of(
                    out@,
                ).contains((#[trigger] endpoints@[m])@) by {
                    if m < i {
                        assert(before.contains(endpoints@[m]@));
                        let w = choose|w: int|
                            0 <= w < before.len() && #[trigger] before[w] == endpoints@[m]@;
                        assert(crate::paths::strs_view_of(out@)[w] == endpoints@[m]@);
                    } else {
                        assert(crate::paths::strs_view_of(out@)[out@.len() - 1]
                            == endpoints@[m]@);
                    }
                }
            }
        } else {
            proof {
                assert(crate::paths::strs_view_of(out@).contains(endpoints@[i as int]@));
            }
        }
        i = i + 1;
    }
    proof {
        assert forall|s: Seq<char>| crate::paths::strs_view_of(endpoints@).contains(
            s,
        ) implies #[trigger] crate::paths::strs_view_of(out@).contains(s) by {
            let w = choose|w: int|
                0 <= w < crate::paths::strs_view_of(endpoints@).len()
                    && crate::paths::strs_view_of(endpoints@)[w] == s;
            assert(crate::paths::strs_view_of(out@).contains(endpoints@[w]@));
        }
    }
    out
}

/// Whether a string list holds `s`, view for view.
fn order_contains(v: &Vec<String>, s: &String) -> (r: bool)
    ensures
        r == crate::paths::strs_view_of(v@).contains(s@),
{
    let mut i: usize = 0;
    while i < v.len()
        invariant
            i <= v@.len(),
            forall|m: int| 0 <= m < i ==> #[trigger] crate::paths::strs_view_of(v@)[m] != s@,
        decreases v@.len() - i,
    {
        proof {
            assert(crate::paths::strs_view_of(v@)[i as int] == v@[i as int]@);
        }
        if crate::text::str_eq(&v[i], s) {
            proof {
                assert(crate::paths::strs_view_of(v@).contains(s@)) by {
                    assert(crate::paths::strs_view_of(v@)[i as int] == s@);
                }
            }
            return true;
        }
        i = i + 1;
    }
    proof {
        if crate::paths::strs_view_of(v@).contains(s@) {
            let w = choose|w: int|
                0 <= w < crate::paths::strs_view_of(v@).len() && crate::paths::strs_view_of(
                    v@,
                )[w] == s@;
            assert(false);
        }
    }
    false
}


/// The views of a lock-entry list.
pub open spec fn lock_views_of(s: Seq<CanonicalLockEntry>) -> Seq<crate::state::LockEntryView> {
    crate::state::entries_view(s)
}

/// The first index whose lock key matches, scanning from one index on;
/// negative when none does.
pub open spec fn first_lock_key_from(
    views: Seq<crate::state::LockEntryView>,
    key: Seq<char>,
    from: int,
) -> int
    decreases views.len() - from,
    when 0 <= from <= views.len()
{
    if from >= views.len() {
        -1
    } else if crate::state::lock_key_spec(views[from]) == key {
        from
    } else {
        first_lock_key_from(views, key, from + 1)
    }
}

/// Replace the first lock entry carrying the key, or append the value.
pub open spec fn upsert_lock_views(
    views: Seq<crate::state::LockEntryView>,
    key: Seq<char>,
    e: crate::state::LockEntryView,
) -> Seq<crate::state::LockEntryView> {
    let i = first_lock_key_from(views, key, 0);
    if i >= 0 {
        views.update(i, e)
    } else {
        views.push(e)
    }
}

/// The first index whose config key matches, scanning from one index on;
/// negative when none does.
pub open spec fn first_config_key_from(
    views: Seq<crate::state::ConfigFileView>,
    key: Seq<char>,
    from: int,
) -> int
    decreases views.len() - from,
    when 0 <= from <= views.len()
{
    if from >= views.len() {
        -1
    } else if crate::state::config_key_spec(views[from].path) == key {
        from
    } else {
        first_config_key_from(views, key, from + 1)
    }
}

/// Replace the first config file carrying the key, or append the value.
pub open spec fn upsert_config_views(
    views: Seq<crate::state::ConfigFileView>,
    key: Seq<char>,
    f: crate::state::ConfigFileView,
) -> Seq<crate::state::ConfigFileView> {
    let i = first_config_key_from(views, key, 0);
    if i >= 0 {
        views.update(i, f)
    } else {
        views.push(f)
    }
}

/// The lock entries after the whole resolution request, folding the
/// conflicts from one index on: each `take_theirs` over a pending lock
/// entry upserts the retained remote entry by the conflict's key.
pub open spec fn resolved_lock_views(
    conflicts: Seq<FriendSyncConflictRecord>,
    items: Seq<ConflictResolutionItem>,
    keep_all_mine: bool,
    take_all_theirs: bool,
    views: Seq<crate::state::LockEntryView>,
    from: int,
) -> Seq<crate::state::LockEntryView>
    decreases conflicts.len() - from,
    when 0 <= from <= conflicts.len()
{
    if from >= conflicts.len() {
        views
    } else {
        let c = conflicts[from];
        let next = if take_decided(items, keep_all_mine, take_all_theirs, c.id@) && c.kind@
            == "lock_entry"@ {
            match c.theirs_value {
                Option::Some(ConflictValue::LockEntry(e)) => upsert_lock_views(views, c.key@, e@),
                _ => views,
            }
        } else {
            views
        };
        resolved_lock_views(conflicts, items, keep_all_mine, take_all_theirs, next, from + 1)
    }
}

/// The config files after the whole resolution request, folding the
/// conflicts from one index on.
pub open spec fn resolved_config_views(
    conflicts: Seq<FriendSyncConflictRecord>,
    items: Seq<ConflictResolutionItem>,
    keep_all_mine: bool,
    take_all_theirs: bool,
    views: Seq<crate::state::ConfigFileView>,
    from: int,
) -> Seq<crate::state::ConfigFileView>
    decreases conflicts.len() - from,
    when 0 <= from <= conflicts.len()
{
    if from >= conflicts.len() {
        views
    } else {
        let c = conflicts[from];
        let next = if take_decided(items, keep_all_mine, take_all_theirs, c.id@) && c.kind@
            == "config_file"@ {
            match c.theirs_value {
                Option::Some(ConflictValue::ConfigFile(f)) => upsert_config_views(
                    views,
                    c.key@,
                    f@,
                ),
                _ => views,
            }
        } else {
            views
        };
        resolved_config_views(conflicts, items, keep_all_mine, take_all_theirs, next, from + 1)
    }
}

/// The ids of the conflicts a resolution request keeps pending, in order,
/// folding from one index on.
pub open spec fn skipped_ids(
    conflicts: Seq<FriendSyncConflictRecord>,
    items: Seq<ConflictResolutionItem>,
    keep_all_mine: bool,
    take_all_theirs: bool,
    from: int,
) -> Seq<Seq<char>>
    decreases conflicts.len() - from,
    when 0 <= from <= conflicts.len()
{
    if from >= conflicts.len() {
        Seq::empty()
    } else {
        (if skip_decided(items, keep_all_mine, take_all_theirs, conflicts[from].id@) {
            seq![conflicts[from].id@]
        } else {
            Seq::empty()
        }) + skipped_ids(conflicts, items, keep_all_mine, take_all_theirs, from + 1)
    }
}

/// The ids of a conflict list.
pub open spec fn conflict_ids_of(rs: Seq<FriendSyncConflictRecord>) -> Seq<Seq<char>> {
    rs.map_values(|c: FriendSyncConflictRecord| c.id@)
}

/// Whether two retained values agree.
pub open spec fn values_match(a: Option<ConflictValue>, b: Option<ConflictValue>) -> bool {
    match (a, b) {
        (Option::Some(ConflictValue::LockEntry(x)), Option::Some(ConflictValue::LockEntry(y))) => x@
            == y@,
        (
            Option::Some(ConflictValue::ConfigFile(x)),
            Option::Some(ConflictValue::ConfigFile(y)),
        ) => x@ == y@,
        (Option::None, Option::None) => true,
        _ => false,
    }
}

/// Whether two conflict records agree field by field.
pub open spec fn conflict_matches(a: FriendSyncConflictRecord, b: FriendSyncConflictRecord) -> bool {
    &&& a.id@ == b.id@
    &&& a.kind@ == b.kind@
    &&& a.key@ == b.key@
    &&& a.peer_id@ == b.peer_id@
    &&& a.mine_hash@ == b.mine_hash@
    &&& a.theirs_hash@ == b.theirs_hash@
    &&& a.created_at@ == b.created_at@
    &&& values_match(a.mine_value, b.mine_value)
    &&& values_match(a.theirs_value, b.theirs_value)
}

/// Copy one retained value.
fn duplicate_value(v: &Option<ConflictValue>) -> (r: Option<ConflictValue>)
    ensures
        values_match(r, *v),
{
    match v {
        Option::Some(ConflictValue::LockEntry(e)) => Option::Some(
            ConflictValue::LockEntry(duplicate_entry(e)),
        ),
        Option::Some(ConflictValue::ConfigFile(f)) => Option::Some(
            ConflictValue::ConfigFile(duplicate_config(f)),
        ),
        Option::None => Option::None,
    }
}

/// Copy one conflict record.
fn duplicate_conflict(c: &FriendSyncConflictRecord) -> (r: FriendSyncConflictRecord)
    ensures
        conflict_matches(r, *c),
{
    FriendSyncConflictRecord {
        id: crate::state::clone_string(&c.id),
        kind: crate::state::clone_string(&c.kind),
        key: crate::state::clone_string(&c.key),
        peer_id: crate::state::clone_string(&c.peer_id),
        mine_hash: crate::state::clone_string(&c.mine_hash),
        theirs_hash: crate::state::clone_string(&c.theirs_hash),
        mine_preview: match &c.mine_preview {
            Option::Some(p) => Option::Some(crate::state::clone_string(p)),
            Option::None => Option::None,
        },
        theirs_preview: match &c.theirs_preview {
            Option::Some(p) => Option::Some(crate::state::clone_string(p)),
            Option::None => Option::None,
        },
        mine_value: duplicate_value(&c.mine_value),
        theirs_value: duplicate_value(&c.theirs_value),
        created_at: crate::state::clone_string(&c.created_at),
    }
}

/// Replace the first lock entry carrying the key, or append the value.
pub(crate) fn upsert_lock_entry(lock: &mut Vec<CanonicalLockEntry>, key: &String, e: &CanonicalLockEntry)
    ensures
        lock_views_of(final(lock)@) == upsert_lock_views(lock_views_of(old(lock)@), key@, e@),
{
    let ghost views0 = lock_views_of(lock@);
    let mut i: usize = 0;
    while i < lock.len()
        invariant
            i <= lock@.len(),
            lock@ == old(lock)@,
            views0 == lock_views_of(lock@),
            first_lock_key_from(views0, key@, 0) == first_lock_key_from(views0, key@, i as int),
        decreases lock@.len() - i,
    {
        let le = &lock[i];
        proof {
            assert(*le == lock@[i as int]);
            assert(views0[i as int] == lock@[i as int]@);
        }
        let lkey = crate::state::lock_key_for(le);
        if crate::text::str_eq(&lkey, key) {
            proof {
                assert(first_lock_key_from(views0, key@, i as int) == i as int);
            }
            let _ = lock.remove(i);
            lock.insert(i, duplicate_entry(e));
            proof {
                assert(lock_views_of(lock@) =~= upsert_lock_views(views0, key@, e@)) by {
                    assert(lock@.len() == views0.len());
                    assert forall|j: int| 0 <= j < lock@.len() implies lock_views_of(lock@)[j]
                        == upsert_lock_views(views0, key@, e@)[j] by {
                        if j == i as int {
                            assert(lock@[j]@ == e@);
                        } else {
                            assert(lock@[j]@ == views0[j]);
                        }
                    }
                }
            }
            return;
        }
        i = i + 1;
    }
    proof {
        assert(first_lock_key_from(views0, key@, lock@.len() as int) == -1);
    }
    lock.push(duplicate_entry(e));
    proof {
        assert(lock_views_of(lock@) =~= upsert_lock_views(views0, key@, e@)) by {
            assert forall|j: int| 0 <= j < lock@.len() implies lock_views_of(lock@)[j]
                == upsert_lock_views(views0, key@, e@)[j] by {
                if j < views0.len() {
                    assert(lock@[j]@ == views0[j]);
                } else {
                    assert(lock@[j]@ == e@);
                }
            }
        }
    }
}

/// Replace the first config file carrying the key, or append the value.
pub(crate) fn upsert_config_state(configs: &mut Vec<ConfigFileState>, key: &String, f: &ConfigFileState)
    ensures
        crate::state::configs_view(final(configs)@) == upsert_config_views(
            crate::state::configs_view(old(configs)@),
            key@,
            f@,
        ),
{
    let ghost views0 = crate::state::configs_view(configs@);
    let mut i: usize = 0;
    while i < configs.len()
        invariant
            i <= configs@.len(),
            configs@ == old(configs)@,
            views0 == crate::state::configs_view(configs@),
            first_config_key_from(views0, key@, 0) == first_config_key_from(
                views0,
                key@,
                i as int,
            ),
        decreases configs@.len() - i,
    {
        let cf = &configs[i];
        proof {
            assert(*cf == configs@[i as int]);
            assert(views0[i as int] == configs@[i as int]@);
        }
        let ckey = crate::state::config_key_for(cf.path.as_str());
        if crate::text::str_eq(&ckey, key) {
            proof {
                assert(first_config_key_from(views0, key@, i as int) == i as int);
            }
            let _ = configs.remove(i);
            configs.insert(i, duplicate_config(f));
            proof {
                assert(crate::state::configs_view(configs@) =~= upsert_config_views(
                    views0,
                    key@,
                    f@,
                )) by {
                    assert(configs@.len() == views0.len());
                    assert forall|j: int| 0 <= j < configs@.len() implies crate::state::configs_view(
                        configs@,
                    )[j] == upsert_config_views(views0, key@, f@)[j] by {
                        if j == i as int {
                            assert(configs@[j]@ == f@);
                        } else {
                            assert(configs@[j]@ == views0[j]);
                        }
                    }
                }
            }
            return;
        }
        i = i + 1;
    }
    proof {
        assert(first_config_key_from(views0, key@, configs@.len() as int) == -1);
    }
    configs.push(duplicate_config(f));
    proof {
        assert(crate::state::configs_view(configs@) =~= upsert_config_views(views0, key@, f@)) by {
            assert forall|j: int| 0 <= j < configs@.len() implies crate::state::configs_view(
                configs@,
            )[j] == upsert_config_views(views0, key@, f@)[j] by {
                if j < views0.len() {
                    assert(configs@[j]@ == views0[j]);
                } else {
                    assert(configs@[j]@ == f@);
                }
            }
        }
    }
}

/// Apply a conflict-resolution request to the pending conflicts, in order:
/// `take_theirs` upserts the retained remote value into the lock entries or
/// the config files by the conflict's key, `keep_mine` keeps the local
/// value, `skip_for_now` keeps the conflict pending, and anything else
/// counts as keeping the local value. Returns the conflicts kept pending,
/// in their original order.
#[verifier::rlimit(100)]
pub fn apply_resolutions(
    conflicts: &Vec<FriendSyncConflictRecord>,
    payload: &ConflictResolutionPayload,
    lock: &mut Vec<CanonicalLockEntry>,
    configs: &mut Vec<ConfigFileState>,
) -> (remaining: Vec<FriendSyncConflictRecord>)
    ensures
        lock_views_of(final(lock)@) == resolved_lock_views(
            conflicts@,
            payload.items@,
            payload.keep_all_mine,
            payload.take_all_theirs,
            lock_views_of(old(lock)@),
            0,
        ),
        crate::state::configs_view(final(configs)@) == resolved_config_views(
            conflicts@,
            payload.items@,
            payload.keep_all_mine,
            payload.take_all_theirs,
            crate::state::configs_view(old(configs)@),
            0,
        ),
        conflict_ids_of(remaining@) == skipped_ids(
            conflicts@,
            payload.items@,
            payload.keep_all_mine,
            payload.take_all_theirs,
            0,
        ),
        forall|m: int|
            0 <= m < remaining@.len() ==> exists|i: int|
                0 <= i < conflicts@.len() && conflict_matches(
                    #[trigger] remaining@[m],
                    conflicts@[i],
                ),
{
    let ghost km = payload.keep_all_mine;
    let ghost tt = payload.take_all_theirs;
    let ghost lock_init = lock_views_of(lock@);
    let ghost cfg_init = crate::state::configs_view(configs@);
    let mut remaining: Vec<FriendSyncConflictRecord> = Vec::new();
    let mut i: usize = 0;
    while i < conflicts.len()
        invariant
            i <= conflicts@.len(),
            lock_init == lock_views_of(old(lock)@),
            cfg_init == crate::state::configs_view(old(configs)@),
            km == payload.keep_all_mine,
            tt == payload.take_all_theirs,
            resolved_lock_views(
                conflicts@,
                payload.items@,
                km,
                tt,
                lock_views_of(lock@),
                i as int,
            ) == resolved_lock_views(conflicts@, payload.items@, km, tt, lock_init, 0),
            resolved_config_views(
                conflicts@,
                payload.items@,
                km,
                tt,
                crate::state::configs_view(configs@),
                i as int,
            ) == resolved_config_views(conflicts@, payload.items@, km, tt, cfg_init, 0),
            conflict_ids_of(remaining@) + skipped_ids(conflicts@, payload.items@, km, tt, i as int)
                == skipped_ids(conflicts@, payload.items@, km, tt, 0),
            forall|m: int|
                0 <= m < remaining@.len() ==> exists|w: int|
                    0 <= w < conflicts@.len() && conflict_matches(
                        #[trigger] remaining@[m],
                        conflicts@[w],
                    ),
        decreases conflicts@.len() - i,
    {
        let c = &conflicts[i];
        proof {
            assert(*c == conflicts@[i as int]);
            lemma_res_literals();
        }
        let ghost lock0 = lock_views_of(lock@);
        let ghost cfg0 = crate::state::configs_view(configs@);
        let res = resolution_for(&c.id, payload);
        if crate::text::eq_ignore_case(res.as_str(), "skip_for_now") {
            let ghost rem0 = remaining@;
            remaining.push(duplicate_conflict(c));
            proof {
                assert(skip_decided(payload.items@, km, tt, conflicts@[i as int].id@));
                assert(!take_decided(payload.items@, km, tt, conflicts@[i as int].id@));
                assert(conflict_ids_of(remaining@) =~= conflict_ids_of(rem0) + seq![
                    conflicts@[i as int].id@,
                ]);
                assert(conflict_ids_of(remaining@) + skipped_ids(
                    conflicts@,
                    payload.items@,
                    km,
                    tt,
                    i as int + 1,
                ) =~= conflict_ids_of(rem0) + skipped_ids(
                    conflicts@,
                    payload.items@,
                    km,
                    tt,
                    i as int,
                ));
                assert(conflict_matches(
                    remaining@[remaining@.len() - 1],
                    conflicts@[i as int],
                ));
            }
        } else if crate::text::eq_ignore_case(res.as_str(), "take_theirs") {
            proof {
                assert(take_decided(payload.items@, km, tt, conflicts@[i as int].id@));
                assert(!skip_decided(payload.items@, km, tt, conflicts@[i as int].id@));
            }
            if crate::state::str_eq_lit(&c.kind, "lock_entry") {
                match &c.theirs_value {
                    Option::Some(ConflictValue::LockEntry(e)) => {
                        upsert_lock_entry(lock, &c.key, e);
                    },
                    _ => {},
                }
            } else if crate::state::str_eq_lit(&c.kind, "config_file") {
                match &c.theirs_value {
                    Option::Some(ConflictValue::ConfigFile(f)) => {
                        upsert_config_state(configs, &c.key, f);
                    },
                    _ => {},
                }
            }
            proof {
                reveal_strlit("lock_entry");
                reveal_strlit("config_file");
                assert("lock_entry"@.len() == 10);
                assert("config_file"@.len() == 11);
            }
        } else {
            proof {
                assert(!take_decided(payload.items@, km, tt, conflicts@[i as int].id@));
                assert(!skip_decided(payload.items@, km, tt, conflicts@[i as int].id@));
            }
        }
        i = i + 1;
    }
    proof {
        assert(conflict_ids_of(remaining@) + skipped_ids(
            conflicts@,
            payload.items@,
            km,
            tt,
            conflicts@.len() as int,
        ) =~= conflict_ids_of(remaining@));
    }
    remaining
}

} // verus!
